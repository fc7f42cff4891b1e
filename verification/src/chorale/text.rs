//! The text score format: a chorale you can write in an editor and diff.
//!
//! One gesture per line, note names rather than MIDI numbers, and running state for the things a
//! score marks once and means until further notice: the dynamic and the vowel.
//!
//! Every failure carries the line number and the text of the line, because the alternative sends
//! someone back to stare at forty lines of chords.

use crate::chorale::score::{
    compiled, in_order, phrases, tied, total_ticks, Gesture, Phrase, Score, SoloNote, Tempo,
};
use crate::chorale::{dynamic_chars, marked, Part, Voicing, Vowel};
use crate::outside::{debug_text, quoted};
use crate::number::{number, parse_number, push_number, rendered, Number, ONE};
use crate::scan::{
    ascii_lower, ascii_lowered, chars_of, copy_range, decimal, find, find_from, integer, is_at,
    lines, lines_from, lowered, parse_i32, push_decimal, push_text, spells, stands_at, text_of,
    texts, to_ascii_lower, trim, trim_end, trimmed, skip_white, white, words, words_from,
};
use vstd::prelude::*;
use vstd::slice::slice_subrange;

verus! {

/// Part of one word of a line.
#[derive(Debug, Clone, Copy, PartialEq, Eq, Structural)]
pub struct Span {
    pub word: usize,
    pub from: usize,
    pub to: usize,
}

/// What is wrong with a line.
#[derive(Debug, Clone, Copy, PartialEq, Eq, Structural)]
pub enum Problem {
    NotATempo,
    UnsingableTempo(Number),
    DynamicWhat,
    NotADynamic(Span),
    VowelWhat,
    NotAVowelMark(Span),
    ExpectedBeats,
    NotBeats(Span),
    NotALength(Number),
    BuildNeedsStagger,
    FourVoices(usize),
    NotANote(Span),
    SoloWho,
    NotAPart(Span),
    SoloNeedsUnder,
    SoloNeedsSing,
    UnderBeforeSing,
    NotAVowel(Span),
    NotANoteLength(Span),
    CannotLast(Number),
    SoloRest,
    EmptySolo,
    NotAGesture(Span),
    /// The piece has grown past what ticks can count.
    Endless,
    /// A score with no gestures in it.
    Empty,
}

/// The characters a span covers.
pub open spec fn spanned(w: Seq<Seq<char>>, span: Span) -> Seq<char> {
    w[span.word as int].subrange(span.from as int, span.to as int)
}

/// Whether a span lies inside the words.
pub open spec fn fits(w: Seq<Seq<char>>, span: Span) -> bool {
    span.word < w.len() && span.from <= span.to <= w[span.word as int].len()
}

/// Whether what a problem points at lies inside the words.
pub open spec fn points_into(problem: Problem, w: Seq<Seq<char>>) -> bool {
    match problem {
        Problem::NotADynamic(span) => fits(w, span),
        Problem::NotAVowelMark(span) => fits(w, span),
        Problem::NotBeats(span) => fits(w, span),
        Problem::NotANote(span) => fits(w, span),
        Problem::NotAPart(span) => fits(w, span),
        Problem::NotAVowel(span) => fits(w, span),
        Problem::NotANoteLength(span) => fits(w, span),
        Problem::NotAGesture(span) => fits(w, span),
        _ => true,
    }
}

/// The whole of one word.
pub open spec fn whole(w: Seq<Seq<char>>, word: int) -> Span {
    Span { word: word as usize, from: 0, to: w[word].len() as usize }
}

/// A semitone step above C, by letter.
pub open spec fn step_of(letter: char) -> Option<int> {
    let c = ascii_lower(letter);
    if c == 'c' {
        Some(0)
    } else if c == 'd' {
        Some(2)
    } else if c == 'e' {
        Some(4)
    } else if c == 'f' {
        Some(5)
    } else if c == 'g' {
        Some(7)
    } else if c == 'a' {
        Some(9)
    } else if c == 'b' {
        Some(11)
    } else {
        None
    }
}

/// What one character does to a pitch as an accidental.
pub open spec fn bend(c: char) -> int {
    if c == '#' || c == 's' {
        1
    } else if c == 'b' || c == 'f' {
        -1
    } else {
        0
    }
}

/// Where a run of accidentals that starts at `from` ends.
pub open spec fn bends_end(s: Seq<char>, from: int) -> int
    decreases s.len() - from,
{
    if from < s.len() && bend(s[from]) != 0 {
        bends_end(s, from + 1)
    } else {
        from
    }
}

/// What the accidentals from `from` on add up to.
pub open spec fn bends_sum(s: Seq<char>, from: int) -> int
    decreases s.len() - from,
{
    if from < s.len() && bend(s[from]) != 0 {
        bend(s[from]) + bends_sum(s, from + 1)
    } else {
        0
    }
}

/// A scientific pitch name as a MIDI number, `Some(None)` for the tacet marker `-`.
///
/// C4 is middle C, which is MIDI 60: the convention a notation editor uses, so a note copied off
/// a staff means what it looks like.
pub open spec fn note_named(word: Seq<char>) -> Option<Option<u8>> {
    if word == "-"@ {
        Some(None)
    } else if word.len() == 0 || step_of(word[0]) is None {
        None
    } else {
        let end = bends_end(word, 1);
        match integer(word.subrange(end, word.len() as int)) {
            Some(octave) => {
                let midi = (octave + 1) * 12 + step_of(word[0])->0 + bends_sum(word, 1);
                if i32::MIN <= octave <= i32::MAX && 0 <= midi <= 127 {
                    Some(Some(midi as u8))
                } else {
                    None
                }
            },
            None => None,
        }
    }
}

fn letter_step(c: char) -> (step: Option<i64>)
    ensures
        step is Some <==> step_of(c) is Some,
        step is Some ==> step->0 == step_of(c)->0 && 0 <= step->0 <= 11,
{
    let c = to_ascii_lower(c);
    if c == 'c' {
        Some(0)
    } else if c == 'd' {
        Some(2)
    } else if c == 'e' {
        Some(4)
    } else if c == 'f' {
        Some(5)
    } else if c == 'g' {
        Some(7)
    } else if c == 'a' {
        Some(9)
    } else if c == 'b' {
        Some(11)
    } else {
        None
    }
}

fn midi_of_chars(word: &[char]) -> (midi: Option<Option<u8>>)
    ensures
        midi == note_named(word@),
{
    if spells(word, "-") {
        return Some(None);
    }
    let size: usize = word.len();
    if size == 0 {
        return None;
    }
    let step: i64 = match letter_step(word[0]) {
        Some(step) => step,
        None => {
            return None;
        },
    };
    let mut at: usize = 1;
    let mut sum: i128 = 0;
    while at < word.len() && (word[at] == '#' || word[at] == 's' || word[at] == 'b' || word[at] == 'f')
        invariant
            size == word@.len(),
            1 <= at <= word@.len(),
            -at <= sum <= at,
            bends_end(word@, 1) == bends_end(word@, at as int),
            bends_sum(word@, 1) == sum + bends_sum(word@, at as int),
        decreases word@.len() - at,
    {
        if word[at] == '#' || word[at] == 's' {
            sum = sum + 1;
        } else {
            sum = sum - 1;
        }
        at = at + 1;
    }
    let octave: i32 = match parse_i32(slice_subrange(word, at, word.len())) {
        Some(octave) => octave,
        None => {
            return None;
        },
    };
    let midi: i128 = (octave as i128 + 1) * 12 + step as i128 + sum;
    if 0 <= midi && midi <= 127 {
        Some(Some(midi as u8))
    } else {
        None
    }
}

/// A pitch name to MIDI.
pub fn midi_of(word: &str) -> (midi: Option<Option<u8>>)
    ensures
        midi == note_named(word@),
{
    let chars = chars_of(word);
    midi_of_chars(chars.as_slice())
}

/// What a lower-case word means as a part.
pub open spec fn part_word(word: Seq<char>) -> Option<Part> {
    if word == "bass"@ || word == "b"@ {
        Some(Part::Bass)
    } else if word == "tenor"@ || word == "t"@ {
        Some(Part::Tenor)
    } else if word == "alto"@ || word == "a"@ {
        Some(Part::Alto)
    } else if word == "soprano"@ || word == "s"@ {
        Some(Part::Soprano)
    } else {
        None
    }
}

fn part_of_chars(word: &[char]) -> (part: Option<Part>)
    ensures
        part == part_word(ascii_lowered(word@)),
{
    let lower = lowered(word);
    let w = lower.as_slice();
    if spells(w, "bass") || spells(w, "b") {
        Some(Part::Bass)
    } else if spells(w, "tenor") || spells(w, "t") {
        Some(Part::Tenor)
    } else if spells(w, "alto") || spells(w, "a") {
        Some(Part::Alto)
    } else if spells(w, "soprano") || spells(w, "s") {
        Some(Part::Soprano)
    } else {
        None
    }
}

/// The part a word names, capitals aside.
pub fn part_of(word: &str) -> (part: Option<Part>)
    ensures
        part == part_word(ascii_lowered(word@)),
{
    let chars = chars_of(word);
    part_of_chars(chars.as_slice())
}

/// A length as ticks, which have to be countable. A length too short for a tick is one.
pub open spec fn ticks_of(n: Number) -> Result<u64, Problem> {
    if n.count() <= u64::MAX {
        Ok(n.count() as u64)
    } else {
        Err(Problem::Endless)
    }
}

/// A length in beats, read from a word, in ticks.
pub open spec fn beats_at(w: Seq<Seq<char>>, word: int) -> Result<u64, Problem> {
    if word >= w.len() {
        Err(Problem::ExpectedBeats)
    } else {
        match number(w[word]) {
            None => Err(Problem::NotBeats(whole(w, word))),
            Some(n) => if n.positive() {
                ticks_of(n)
            } else {
                Err(Problem::NotALength(n))
            },
        }
    }
}

fn beats_of(w: &Vec<Vec<char>>, word: usize) -> (beats: Result<u64, Problem>)
    ensures
        beats == beats_at(texts(w@), word as int),
        beats matches Ok(n) ==> n > 0,
        beats matches Err(p) ==> points_into(p, texts(w@)) && p != Problem::NotATempo,
{
    if word >= w.len() {
        return Err(Problem::ExpectedBeats);
    }
    proof {
        assert(texts(w@)[word as int] == w@[word as int]@);
    }
    match parse_number(w[word].as_slice()) {
        None => Err(Problem::NotBeats(Span { word, from: 0, to: w[word].len() })),
        Some(n) => match n.counted() {
            Some(count) => if count <= u64::MAX as u128 {
                Ok(count as u64)
            } else {
                Err(Problem::Endless)
            },
            None => Err(Problem::NotALength(n)),
        },
    }
}

/// The first word among `w[from..to]` that names no note, or `to`.
pub open spec fn bad_note(w: Seq<Seq<char>>, from: int, to: int) -> int
    decreases to - from,
{
    if from >= to {
        to
    } else if note_named(w[from]) is None {
        from
    } else {
        bad_note(w, from + 1, to)
    }
}

/// Four note names, low to high. `-` is a voice that does not sing.
pub open spec fn voicing_at(w: Seq<Seq<char>>, from: int, to: int) -> Result<Seq<Option<u8>>, Problem> {
    if to - from != 4 {
        Err(Problem::FourVoices((to - from) as usize))
    } else if bad_note(w, from, to) < to {
        Err(Problem::NotANote(whole(w, bad_note(w, from, to))))
    } else {
        Ok(Seq::new(4, |i: int| note_named(w[from + i])->0))
    }
}

fn voicing_of(w: &Vec<Vec<char>>, from: usize, to: usize) -> (voicing: Result<Voicing, Problem>)
    requires
        from <= to <= w@.len(),
    ensures
        match voicing_at(texts(w@), from as int, to as int) {
            Ok(v) => voicing is Ok && voicing->Ok_0@ == v,
            Err(p) => voicing is Err && voicing->Err_0 == p,
        },
        voicing matches Err(p) ==> points_into(p, texts(w@)) && p != Problem::NotATempo,
{
    if to - from != 4 {
        return Err(Problem::FourVoices(to - from));
    }
    let mut voicing: Voicing = [None, None, None, None];
    let mut i: usize = 0;
    while i < 4
        invariant
            i <= 4,
            to == from + 4,
            to <= w@.len(),
            voicing@.len() == 4,
            bad_note(texts(w@), from as int, to as int) == bad_note(
                texts(w@),
                from + i,
                to as int,
            ),
            forall|k: int| 0 <= k < i ==> voicing@[k] == note_named(#[trigger] texts(w@)[from + k])->0,
        decreases 4 - i,
    {
        proof {
            assert(texts(w@)[from + i] == w@[from + i]@);
        }
        match midi_of_chars(w[from + i].as_slice()) {
            None => {
                return Err(
                    Problem::NotANote(Span { word: from + i, from: 0, to: w[from + i].len() }),
                );
            },
            Some(midi) => {
                let ghost before = voicing@;
                voicing[i] = midi;
                assert forall|k: int| 0 <= k < i + 1 implies voicing@[k] == note_named(
                    #[trigger] texts(w@)[from + k],
                )->0 by {
                    if k < i {
                        assert(voicing@[k] == before[k]);
                    }
                }
            },
        }
        i = i + 1;
    }
    proof {
        assert(voicing@ =~= Seq::new(4, |i: int| note_named(texts(w@)[from + i])->0));
    }
    Ok(voicing)
}

/// Where a word first stands in the line, or the number of words.
pub open spec fn keyword(w: Seq<Seq<char>>, word: Seq<char>, from: int) -> int
    decreases w.len() - from,
{
    if from >= w.len() {
        w.len() as int
    } else if w[from] == word {
        from
    } else {
        keyword(w, word, from + 1)
    }
}

fn find_keyword(w: &Vec<Vec<char>>, word: &str) -> (at: usize)
    ensures
        at == keyword(texts(w@), word@, 0),
        at <= w@.len(),
{
    let mut at: usize = 0;
    while at < w.len()
        invariant
            at <= w@.len(),
            keyword(texts(w@), word@, 0) == keyword(texts(w@), word@, at as int),
        decreases w@.len() - at,
    {
        proof {
            assert(texts(w@)[at as int] == w@[at as int]@);
        }
        if spells(w[at].as_slice(), word) {
            return at;
        }
        at = at + 1;
    }
    at
}

/// One note of a solo line, read from word `k`: `E4`, `E4:2`, `E4/ee`, `E4:2/ee`. Beats default
/// to one, the vowel to whatever is running.
pub open spec fn solo_note_at(w: Seq<Seq<char>>, k: int, running: Vowel) -> Result<SoloNote, Problem> {
    let word = w[k];
    let slash = find_from(word, '/', 0);
    let vowel = if slash < word.len() {
        Vowel::named(ascii_lowered(word.subrange(slash + 1, word.len() as int)))
    } else {
        Some(running)
    };
    let head = word.subrange(0, slash);
    let colon = find_from(head, ':', 0);
    let length = if colon < head.len() {
        number(head.subrange(colon + 1, head.len() as int))
    } else {
        Some(Number::Finite { negative: false, nanos: ONE as u128, more: false })
    };
    if vowel is None {
        Err(
            Problem::NotAVowel(
                Span { word: k as usize, from: (slash + 1) as usize, to: word.len() as usize },
            ),
        )
    } else if length is None {
        Err(
            Problem::NotANoteLength(
                Span { word: k as usize, from: (colon + 1) as usize, to: slash as usize },
            ),
        )
    } else if !length->0.positive() {
        Err(Problem::CannotLast(length->0))
    } else {
        match note_named(head.subrange(0, colon)) {
            None => Err(
                Problem::NotANote(Span { word: k as usize, from: 0, to: colon as usize }),
            ),
            Some(None) => Err(Problem::SoloRest),
            Some(Some(midi)) => match ticks_of(length->0) {
                Ok(length) => Ok(SoloNote { midi, length, vowel: vowel->0 }),
                Err(p) => Err(p),
            },
        }
    }
}

fn solo_note(w: &Vec<Vec<char>>, k: usize, running: Vowel) -> (note: Result<SoloNote, Problem>)
    requires
        k < w@.len(),
    ensures
        note == solo_note_at(texts(w@), k as int, running),
        note matches Ok(n) ==> n.length > 0,
        note matches Err(p) ==> points_into(p, texts(w@)) && p != Problem::NotATempo,
{
    proof {
        assert(texts(w@)[k as int] == w@[k as int]@);
    }
    let word = w[k].as_slice();
    let slash = find(word, '/', 0);
    let mut vowel: Vowel = running;
    if slash < word.len() {
        match Vowel::parse_chars(slice_subrange(word, slash + 1, word.len())) {
            Some(v) => {
                vowel = v;
            },
            None => {
                return Err(Problem::NotAVowel(Span { word: k, from: slash + 1, to: word.len() }));
            },
        }
    }
    let head = slice_subrange(word, 0, slash);
    let colon = find(head, ':', 0);
    let mut length = Number::Finite { negative: false, nanos: ONE as u128, more: false };
    if colon < head.len() {
        match parse_number(slice_subrange(head, colon + 1, head.len())) {
            Some(n) => {
                length = n;
            },
            None => {
                return Err(Problem::NotANoteLength(Span { word: k, from: colon + 1, to: slash }));
            },
        }
    }
    let count: u128 = match length.counted() {
        Some(count) => count,
        None => {
            return Err(Problem::CannotLast(length));
        },
    };
    match midi_of_chars(slice_subrange(head, 0, colon)) {
        None => Err(Problem::NotANote(Span { word: k, from: 0, to: colon })),
        Some(None) => Err(Problem::SoloRest),
        Some(Some(midi)) => if count <= u64::MAX as u128 {
            Ok(SoloNote { midi, length: count as u64, vowel })
        } else {
            Err(Problem::Endless)
        },
    }
}

/// The solo line read from the words `w[from..to]`, each of them a note.
pub open spec fn solo_notes(w: Seq<Seq<char>>, from: int, to: int, running: Vowel) -> Result<
    Seq<SoloNote>,
    Problem,
>
    decreases to - from,
{
    if to <= from {
        Ok(Seq::empty())
    } else {
        match solo_notes(w, from, to - 1, running) {
            Err(p) => Err(p),
            Ok(before) => match solo_note_at(w, to - 1, running) {
                Err(p) => Err(p),
                Ok(note) => Ok(before.push(note)),
            },
        }
    }
}

/// `solo <part> under B T A S [hum <vowel>] sing <note>[:beats][/vowel] ...`
///
/// A choir behind a soloist hums unless told otherwise.
pub open spec fn solo_at(w: Seq<Seq<char>>, running: Vowel, level: u8) -> Result<Phrase, Problem> {
    let under_at = keyword(w, "under"@, 0);
    let sing_at = keyword(w, "sing"@, 0);
    let hum_at = keyword(w, "hum"@, 0);
    if w.len() < 2 {
        Err(Problem::SoloWho)
    } else if part_word(ascii_lowered(w[1])) is None {
        Err(Problem::NotAPart(whole(w, 1)))
    } else if under_at >= w.len() {
        Err(Problem::SoloNeedsUnder)
    } else if sing_at >= w.len() {
        Err(Problem::SoloNeedsSing)
    } else if sing_at <= under_at {
        Err(Problem::UnderBeforeSing)
    } else {
        let hums = under_at < hum_at < sing_at;
        let under_vowel = if hums {
            Vowel::named(ascii_lowered(w[hum_at + 1]))
        } else {
            Some(Vowel::Mm)
        };
        let under_end = if hums {
            hum_at
        } else {
            sing_at
        };
        if under_vowel is None {
            Err(Problem::NotAVowel(whole(w, hum_at + 1)))
        } else {
            match voicing_at(w, under_at + 1, under_end) {
                Err(p) => Err(p),
                Ok(under) => match solo_notes(w, sing_at + 1, w.len() as int, running) {
                    Err(p) => Err(p),
                    Ok(notes) => if notes.len() == 0 {
                        Err(Problem::EmptySolo)
                    } else {
                        Ok(
                            Phrase::Solo {
                                part: part_word(ascii_lowered(w[1]))->0,
                                notes,
                                under,
                                under_vowel: under_vowel->0,
                                level,
                            },
                        )
                    },
                },
            }
        }
    }
}

fn read_solo_notes(w: &Vec<Vec<char>>, from: usize, running: Vowel) -> (read: Result<
    Vec<SoloNote>,
    Problem,
>)
    requires
        from <= w@.len(),
    ensures
        match solo_notes(texts(w@), from as int, w@.len() as int, running) {
            Ok(notes) => read is Ok && read->Ok_0@ == notes,
            Err(p) => read is Err && read->Err_0 == p,
        },
        read matches Ok(notes) ==> forall|i: int|
            0 <= i < notes@.len() ==> (#[trigger] notes@[i]).length > 0,
        read matches Err(p) ==> points_into(p, texts(w@)) && p != Problem::NotATempo,
{
    let mut notes: Vec<SoloNote> = Vec::new();
    let mut k: usize = from;
    while k < w.len()
        invariant
            from <= k <= w@.len(),
            solo_notes(texts(w@), from as int, k as int, running) == Ok::<Seq<SoloNote>, Problem>(
                notes@,
            ),
            forall|i: int| 0 <= i < notes@.len() ==> (#[trigger] notes@[i]).length > 0,
        decreases w@.len() - k,
    {
        match solo_note(w, k, running) {
            Ok(note) => {
                notes.push(note);
            },
            Err(p) => {
                proof {
                    lemma_solo_fails(texts(w@), from as int, k as int, w@.len() as int, running, p);
                }
                return Err(p);
            },
        }
        k = k + 1;
    }
    Ok(notes)
}

fn solo(w: &Vec<Vec<char>>, running: Vowel, level: u8) -> (gesture: Result<Gesture, Problem>)
    ensures
        match solo_at(texts(w@), running, level) {
            Ok(phrase) => gesture is Ok && gesture->Ok_0@ == phrase,
            Err(p) => gesture is Err && gesture->Err_0 == p,
        },
        gesture matches Ok(g) ==> g@.singable(),
        gesture matches Err(p) ==> points_into(p, texts(w@)) && p != Problem::NotATempo,
{
    let size: usize = w.len();
    if size < 2 {
        return Err(Problem::SoloWho);
    }
    proof {
        assert(texts(w@)[1] == w@[1]@);
    }
    let part = match part_of_chars(w[1].as_slice()) {
        Some(part) => part,
        None => {
            return Err(Problem::NotAPart(Span { word: 1, from: 0, to: w[1].len() }));
        },
    };
    let under_at = find_keyword(w, "under");
    if under_at >= size {
        return Err(Problem::SoloNeedsUnder);
    }
    let sing_at = find_keyword(w, "sing");
    if sing_at >= size {
        return Err(Problem::SoloNeedsSing);
    }
    if sing_at <= under_at {
        return Err(Problem::UnderBeforeSing);
    }
    let hum_at = find_keyword(w, "hum");
    let mut under_vowel = Vowel::Mm;
    let mut under_end: usize = sing_at;
    if under_at < hum_at && hum_at < sing_at {
        proof {
            assert(texts(w@)[hum_at + 1] == w@[hum_at + 1]@);
        }
        match Vowel::parse_chars(w[hum_at + 1].as_slice()) {
            Some(v) => {
                under_vowel = v;
                under_end = hum_at;
            },
            None => {
                return Err(
                    Problem::NotAVowel(
                        Span { word: hum_at + 1, from: 0, to: w[hum_at + 1].len() },
                    ),
                );
            },
        }
    }
    let under = match voicing_of(w, under_at + 1, under_end) {
        Ok(v) => v,
        Err(p) => {
            return Err(p);
        },
    };
    let notes = match read_solo_notes(w, sing_at + 1, running) {
        Ok(notes) => notes,
        Err(p) => {
            return Err(p);
        },
    };
    if notes.len() == 0 {
        return Err(Problem::EmptySolo);
    }
    Ok(Gesture::Solo { part, notes, under, under_vowel, level })
}

/// Once a word is no note, the line fails the way that word does.
proof fn lemma_solo_fails(w: Seq<Seq<char>>, from: int, k: int, to: int, running: Vowel, p: Problem)
    requires
        from <= k < to,
        solo_notes(w, from, k, running) is Ok,
        solo_note_at(w, k, running) == Err::<SoloNote, Problem>(p),
    ensures
        solo_notes(w, from, to, running) == Err::<Seq<SoloNote>, Problem>(p),
    decreases to - k,
{
    if k < to - 1 {
        lemma_solo_fails(w, from, k, to - 1, running, p);
    }
}

/// What a line means.
#[verifier::ext_equal]
pub enum Meaning {
    Blank,
    Name(Seq<char>),
    /// Billionths of a beat to the minute.
    Tempo(u64),
    Level(u8),
    Vowel(Vowel),
    Gesture(Phrase),
}

/// A line up to its comment, without the white space around it.
pub open spec fn content_of(raw: Seq<char>) -> Seq<char> {
    trimmed(raw.subrange(0, find_from(raw, '#', 0)))
}

/// Whether a word of the line is the given one.
pub open spec fn word_is(w: Seq<Seq<char>>, k: int, word: Seq<char>) -> bool {
    k < w.len() && w[k] == word
}

/// What a chord or a build means.
pub open spec fn chord_at(w: Seq<Seq<char>>, vowel: Vowel, level: u8) -> Result<Meaning, Problem> {
    match beats_at(w, 1) {
        Err(p) => Err(p),
        Ok(length) => match voicing_at(w, 2, w.len() as int) {
            Err(p) => Err(p),
            Ok(voicing) => Ok(Meaning::Gesture(Phrase::Chord { voicing, length, vowel, level })),
        },
    }
}

/// What a build means. `top` is optional and sits between the stagger and the voicing.
pub open spec fn build_at(w: Seq<Seq<char>>, vowel: Vowel, level: u8) -> Result<Meaning, Problem> {
    let from_top = word_is(w, 4, "top"@);
    let from: int = if from_top {
        5
    } else {
        4
    };
    match beats_at(w, 1) {
        Err(p) => Err(p),
        Ok(length) => if !word_is(w, 2, "stagger"@) {
            Err(Problem::BuildNeedsStagger)
        } else {
            match beats_at(w, 3) {
                Err(p) => Err(p),
                Ok(stagger) => match voicing_at(w, from, w.len() as int) {
                    Err(p) => Err(p),
                    Ok(voicing) => Ok(
                        Meaning::Gesture(
                            Phrase::Build { voicing, length, stagger, from_top, vowel, level },
                        ),
                    ),
                },
            }
        },
    }
}

/// Whether a tempo can be sung: twenty to three hundred beats a minute.
pub open spec fn singable_tempo(n: Number) -> bool {
    n matches Number::Finite { negative, nanos, more } && !negative && 20 * ONE <= nanos && (nanos < 300
        * ONE || (nanos == 300 * ONE && !more))
}

/// What a line's content means, under the running vowel and dynamic.
pub open spec fn meaning(content: Seq<char>, vowel: Vowel, level: u8) -> Result<Meaning, Problem> {
    let w = words_from(content, 0);
    if w.len() == 0 {
        Ok(Meaning::Blank)
    } else if stands_at(content, "name:"@, 0) {
        Ok(Meaning::Name(trimmed(content.subrange(5, content.len() as int))))
    } else if stands_at(content, "bpm:"@, 0) {
        match number(trimmed(content.subrange(4, content.len() as int))) {
            None => Err(Problem::NotATempo),
            Some(n) => if singable_tempo(n) {
                Ok(Meaning::Tempo(n->nanos as u64))
            } else {
                Err(Problem::UnsingableTempo(n))
            },
        }
    } else if w[0] == "dynamic"@ {
        if w.len() < 2 {
            Err(Problem::DynamicWhat)
        } else {
            match marked(ascii_lowered(w[1])) {
                Some(mark) => Ok(Meaning::Level(mark)),
                None => Err(Problem::NotADynamic(whole(w, 1))),
            }
        }
    } else if w[0] == "vowel"@ {
        if w.len() < 2 {
            Err(Problem::VowelWhat)
        } else {
            match Vowel::named(ascii_lowered(w[1])) {
                Some(v) => Ok(Meaning::Vowel(v)),
                None => Err(Problem::NotAVowelMark(whole(w, 1))),
            }
        }
    } else if w[0] == "rest"@ {
        match beats_at(w, 1) {
            Ok(length) => Ok(Meaning::Gesture(Phrase::Rest { length })),
            Err(p) => Err(p),
        }
    } else if w[0] == "chord"@ {
        chord_at(w, vowel, level)
    } else if w[0] == "build"@ {
        build_at(w, vowel, level)
    } else if w[0] == "solo"@ {
        match solo_at(w, vowel, level) {
            Ok(phrase) => Ok(Meaning::Gesture(phrase)),
            Err(p) => Err(p),
        }
    } else {
        Err(Problem::NotAGesture(whole(w, 0)))
    }
}

/// A line that has been read.
enum Read {
    Blank,
    Name(Vec<char>),
    Tempo(u64),
    Level(u8),
    Vowel(Vowel),
    Gesture(Gesture),
}

impl Read {
    spec fn means(self) -> Meaning {
        match self {
            Read::Blank => Meaning::Blank,
            Read::Name(name) => Meaning::Name(name@),
            Read::Tempo(nanos) => Meaning::Tempo(nanos),
            Read::Level(level) => Meaning::Level(level),
            Read::Vowel(vowel) => Meaning::Vowel(vowel),
            Read::Gesture(gesture) => Meaning::Gesture(gesture@),
        }
    }
}

fn read_chord(w: &Vec<Vec<char>>, vowel: Vowel, level: u8) -> (read: Result<Read, Problem>)
    ensures
        match chord_at(texts(w@), vowel, level) {
            Ok(m) => read is Ok && read->Ok_0.means() == m,
            Err(p) => read is Err && read->Err_0 == p,
        },
        read matches Ok(Read::Gesture(g)) ==> g@.singable(),
        read matches Err(p) ==> points_into(p, texts(w@)) && p != Problem::NotATempo,
{
    match beats_of(w, 1) {
        Err(p) => Err(p),
        Ok(length) => match voicing_of(w, 2, w.len()) {
            Err(p) => Err(p),
            Ok(voicing) => Ok(Read::Gesture(Gesture::Chord { voicing, length, vowel, level })),
        },
    }
}

fn is_word(w: &Vec<Vec<char>>, k: usize, word: &str) -> (yes: bool)
    ensures
        yes == word_is(texts(w@), k as int, word@),
{
    if k < w.len() {
        proof {
            assert(texts(w@)[k as int] == w@[k as int]@);
        }
        spells(w[k].as_slice(), word)
    } else {
        false
    }
}

fn read_build(w: &Vec<Vec<char>>, vowel: Vowel, level: u8) -> (read: Result<Read, Problem>)
    ensures
        match build_at(texts(w@), vowel, level) {
            Ok(m) => read is Ok && read->Ok_0.means() == m,
            Err(p) => read is Err && read->Err_0 == p,
        },
        read matches Ok(Read::Gesture(g)) ==> g@.singable(),
        read matches Err(p) ==> points_into(p, texts(w@)) && p != Problem::NotATempo,
{
    let length: u64 = match beats_of(w, 1) {
        Ok(n) => n,
        Err(p) => {
            return Err(p);
        },
    };
    if !is_word(w, 2, "stagger") {
        return Err(Problem::BuildNeedsStagger);
    }
    let stagger: u64 = match beats_of(w, 3) {
        Ok(n) => n,
        Err(p) => {
            return Err(p);
        },
    };
    let from_top = is_word(w, 4, "top");
    let from: usize = if from_top {
        5
    } else {
        4
    };
    match voicing_of(w, from, w.len()) {
        Err(p) => Err(p),
        Ok(voicing) => Ok(
            Read::Gesture(Gesture::Build { voicing, length, stagger, from_top, vowel, level }),
        ),
    }
}

fn read_tempo(text: &[char]) -> (read: Result<Read, Problem>)
    ensures
        match number(text@) {
            None => read is Err && read->Err_0 == Problem::NotATempo,
            Some(n) => if singable_tempo(n) {
                read is Ok && read->Ok_0.means() == Meaning::Tempo(n->nanos as u64)
            } else {
                read is Err && read->Err_0 == Problem::UnsingableTempo(n)
            },
        },
        read matches Ok(r) ==> r is Tempo,
        read matches Err(p) ==> p is NotATempo || p is UnsingableTempo,
{
    match parse_number(text) {
        None => Err(Problem::NotATempo),
        Some(n) => match n {
            Number::Finite { negative, nanos, more } => {
                let least: u128 = 20 * ONE as u128;
                let most: u128 = 300 * ONE as u128;
                if !negative && least <= nanos && (nanos < most || (nanos == most && !more)) {
                    Ok(Read::Tempo(nanos as u64))
                } else {
                    Err(Problem::UnsingableTempo(n))
                }
            },
            _ => Err(Problem::UnsingableTempo(n)),
        },
    }
}

fn read_line(content: &[char], vowel: Vowel, level: u8) -> (read: Result<Read, Problem>)
    ensures
        match meaning(content@, vowel, level) {
            Ok(m) => read is Ok && read->Ok_0.means() == m,
            Err(p) => read is Err && read->Err_0 == p,
        },
        read matches Ok(Read::Gesture(g)) ==> g@.singable(),
        read matches Err(p) ==> sayable(p, content@),
{
    let w = words(content);
    if w.len() == 0 {
        return Ok(Read::Blank);
    }
    proof {
        assert(texts(w@)[0] == w@[0]@);
    }
    let name_mark = chars_of("name:");
    let tempo_mark = chars_of("bpm:");
    proof {
        reveal_strlit("name:");
        reveal_strlit("bpm:");
    }
    if is_at(content, name_mark.as_slice(), 0) {
        let rest = trim(slice_subrange(content, 5, content.len()));
        return Ok(Read::Name(copy_range(rest, 0, rest.len())));
    }
    if is_at(content, tempo_mark.as_slice(), 0) {
        return read_tempo(trim(slice_subrange(content, 4, content.len())));
    }
    let first = w[0].as_slice();
    if spells(first, "dynamic") {
        if w.len() < 2 {
            return Err(Problem::DynamicWhat);
        }
        assert(texts(w@)[1] == w@[1]@);
        return match dynamic_chars(w[1].as_slice()) {
            Some(mark) => Ok(Read::Level(mark)),
            None => Err(Problem::NotADynamic(Span { word: 1, from: 0, to: w[1].len() })),
        };
    }
    if spells(first, "vowel") {
        if w.len() < 2 {
            return Err(Problem::VowelWhat);
        }
        assert(texts(w@)[1] == w@[1]@);
        return match Vowel::parse_chars(w[1].as_slice()) {
            Some(v) => Ok(Read::Vowel(v)),
            None => Err(Problem::NotAVowelMark(Span { word: 1, from: 0, to: w[1].len() })),
        };
    }
    if spells(first, "rest") {
        return match beats_of(&w, 1) {
            Ok(length) => Ok(Read::Gesture(Gesture::Rest { length })),
            Err(p) => Err(p),
        };
    }
    if spells(first, "chord") {
        return read_chord(&w, vowel, level);
    }
    if spells(first, "build") {
        return read_build(&w, vowel, level);
    }
    if spells(first, "solo") {
        return match solo(&w, vowel, level) {
            Ok(gesture) => Ok(Read::Gesture(gesture)),
            Err(p) => Err(p),
        };
    }
    Err(Problem::NotAGesture(Span { word: 0, from: 0, to: w[0].len() }))
}

/// A piece being read: what its lines have said so far.
#[verifier::ext_equal]
pub struct Piece {
    pub name: Seq<char>,
    /// Billionths of a beat to the minute.
    pub tempo: u64,
    pub phrases: Seq<Phrase>,
    pub vowel: Vowel,
    pub level: u8,
}

/// A piece before its first line.
pub open spec fn untitled() -> Piece {
    Piece {
        name: "untitled"@,
        tempo: 60_000_000_000,
        phrases: Seq::empty(),
        vowel: Vowel::Ah,
        level: 70,
    }
}

/// What a line makes of a piece. A mark holds until it is changed.
pub open spec fn line_read(piece: Piece, raw: Seq<char>) -> Result<Piece, Problem> {
    match meaning(content_of(raw), piece.vowel, piece.level) {
        Err(p) => Err(p),
        Ok(m) => match m {
            Meaning::Blank => Ok(piece),
            Meaning::Name(name) => Ok(Piece { name, ..piece }),
            Meaning::Tempo(tempo) => Ok(Piece { tempo, ..piece }),
            Meaning::Level(level) => Ok(Piece { level, ..piece }),
            Meaning::Vowel(vowel) => Ok(Piece { vowel, ..piece }),
            Meaning::Gesture(phrase) => {
                let now = piece.phrases.push(phrase);
                if total_ticks(now) > u64::MAX {
                    Err(Problem::Endless)
                } else {
                    Ok(Piece { phrases: now, ..piece })
                }
            },
        },
    }
}

/// The lines from `k` on. A failure carries its line, counted from one; that of the piece as a
/// whole is line zero.
pub open spec fn lines_read(all: Seq<Seq<char>>, k: int, piece: Piece) -> Result<Piece, (int, Problem)>
    decreases all.len() - k,
{
    if k >= all.len() {
        if piece.phrases.len() == 0 {
            Err((0, Problem::Empty))
        } else {
            Ok(piece)
        }
    } else {
        match line_read(piece, all[k]) {
            Err(p) => Err((k + 1, p)),
            Ok(now) => lines_read(all, k + 1, now),
        }
    }
}

/// What a source says: a piece, or the first line that is wrong and how.
pub open spec fn source_read(source: Seq<char>) -> Result<Piece, (int, Problem)> {
    lines_read(lines_from(source, 0), 0, untitled())
}

/// The dynamic and the vowel that a line runs under are the last ones marked above it: a line
/// that marks neither leaves both as they were.
pub proof fn a_mark_holds_until_it_is_changed(piece: Piece, raw: Seq<char>)
    requires
        line_read(piece, raw) is Ok,
    ensures
        !(meaning(content_of(raw), piece.vowel, piece.level) matches Ok(Meaning::Level(_)))
            ==> line_read(piece, raw)->Ok_0.level == piece.level,
        !(meaning(content_of(raw), piece.vowel, piece.level) matches Ok(Meaning::Vowel(_)))
            ==> line_read(piece, raw)->Ok_0.vowel == piece.vowel,
        line_read(piece, raw)->Ok_0.phrases.len() >= piece.phrases.len(),
        line_read(piece, raw)->Ok_0.phrases.take(piece.phrases.len() as int) == piece.phrases,
{
    assert(line_read(piece, raw)->Ok_0.phrases.take(piece.phrases.len() as int) =~= piece.phrases);
}

proof fn lemma_find_prefix(a: Seq<char>, b: Seq<char>, c: char, from: int)
    requires
        0 <= from <= a.len(),
        forall|i: int| 0 <= i < a.len() ==> a[i] != c,
    ensures
        find_from(a + seq![c] + b, c, from) == a.len(),
    decreases a.len() - from,
{
    if from < a.len() {
        assert((a + seq![c] + b)[from] == a[from]);
        lemma_find_prefix(a, b, c, from + 1);
    } else {
        assert((a + seq![c] + b)[from] == c);
    }
}

/// What stands behind a `#` never matters.
pub proof fn comments_say_nothing(line: Seq<char>, comment: Seq<char>, piece: Piece)
    requires
        forall|i: int| 0 <= i < line.len() ==> line[i] != '#',
    ensures
        line_read(piece, line + seq!['#'] + comment) == line_read(piece, line + seq!['#']),
{
    lemma_find_prefix(line, comment, '#', 0);
    lemma_find_prefix(line, Seq::empty(), '#', 0);
    assert(line + seq!['#'] + Seq::<char>::empty() =~= line + seq!['#']);
    assert((line + seq!['#'] + comment).subrange(0, line.len() as int) =~= line);
    assert((line + seq!['#']).subrange(0, line.len() as int) =~= line);
}

/// A problem in words. `content` is the line's, without its comment.
pub open spec fn problem_words(problem: Problem, content: Seq<char>) -> Seq<char> {
    let w = words_from(content, 0);
    match problem {
        Problem::NotATempo => debug_text(trimmed(content.subrange(4, content.len() as int)))
            + " is not a tempo"@,
        Problem::UnsingableTempo(n) => rendered(n) + " bpm is not a tempo anyone can sing"@,
        Problem::DynamicWhat => "dynamic what?"@,
        Problem::NotADynamic(span) => debug_text(spanned(w, span))
            + " is not a dynamic (ppp pp p mp mf f ff)"@,
        Problem::VowelWhat => "vowel what?"@,
        Problem::NotAVowelMark(span) => debug_text(spanned(w, span))
            + " is not a vowel (ah eh ee oh oo mm)"@,
        Problem::ExpectedBeats => "expected a number of beats"@,
        Problem::NotBeats(span) => debug_text(spanned(w, span)) + " is not a number of beats"@,
        Problem::NotALength(n) => rendered(n) + " is not a length"@,
        Problem::BuildNeedsStagger => "build needs `stagger <beats>`"@,
        Problem::FourVoices(n) => "expected four voices low to high (bass tenor alto soprano), got "@
            + decimal(n as nat),
        Problem::NotANote(span) => debug_text(spanned(w, span)) + " is not a note name"@,
        Problem::SoloWho => "solo who?"@,
        Problem::NotAPart(span) => debug_text(spanned(w, span))
            + " is not a part (bass tenor alto soprano)"@,
        Problem::SoloNeedsUnder => "solo needs `under B T A S`"@,
        Problem::SoloNeedsSing => "solo needs `sing <notes>`"@,
        Problem::UnderBeforeSing => "`under` comes before `sing`"@,
        Problem::NotAVowel(span) => debug_text(spanned(w, span)) + " is not a vowel"@,
        Problem::NotANoteLength(span) => debug_text(spanned(w, span)) + " is not a length"@,
        Problem::CannotLast(n) => "a note cannot last "@ + rendered(n) + " beats"@,
        Problem::SoloRest => "a soloist cannot sing a rest — use `rest`"@,
        Problem::EmptySolo => "a solo with no notes in it"@,
        Problem::NotAGesture(span) => debug_text(spanned(w, span))
            + " is not a gesture (chord build solo rest dynamic vowel)"@,
        Problem::Endless => "the piece is too long to count"@,
        Problem::Empty => "a score with no gestures in it is not a score"@,
    }
}

/// Whether a problem can be said of a line with this content.
pub open spec fn sayable(problem: Problem, content: Seq<char>) -> bool {
    (problem == Problem::NotATempo ==> content.len() >= 4) && points_into(problem, words_from(content, 0))
}

fn quoted_span(w: &Vec<Vec<char>>, span: Span, rest: &str) -> (text: String)
    requires
        fits(texts(w@), span),
    ensures
        text@ == debug_text(spanned(texts(w@), span)) + rest@,
{
    proof {
        assert(texts(w@)[span.word as int] == w@[span.word as int]@);
    }
    let part = text_of(slice_subrange(w[span.word].as_slice(), span.from, span.to));
    let mut text = quoted(part.as_str());
    push_text(&mut text, rest);
    text
}

fn numbered(n: Number, rest: &str) -> (text: String)
    ensures
        text@ == rendered(n) + rest@,
{
    let mut text = String::new();
    push_number(&mut text, n);
    push_text(&mut text, rest);
    proof {
        assert(text@ =~= rendered(n) + rest@);
    }
    text
}

/// Puts a problem into words.
pub fn describe(problem: Problem, content: &[char]) -> (text: String)
    requires
        sayable(problem, content@),
    ensures
        text@ == problem_words(problem, content@),
{
    let w = words(content);
    match problem {
        Problem::NotATempo => {
            let word = text_of(trim(slice_subrange(content, 4, content.len())));
            let mut text = quoted(word.as_str());
            push_text(&mut text, " is not a tempo");
            text
        },
        Problem::UnsingableTempo(n) => numbered(n, " bpm is not a tempo anyone can sing"),
        Problem::DynamicWhat => "dynamic what?".to_owned(),
        Problem::NotADynamic(span) => quoted_span(&w, span, " is not a dynamic (ppp pp p mp mf f ff)"),
        Problem::VowelWhat => "vowel what?".to_owned(),
        Problem::NotAVowelMark(span) => quoted_span(&w, span, " is not a vowel (ah eh ee oh oo mm)"),
        Problem::ExpectedBeats => "expected a number of beats".to_owned(),
        Problem::NotBeats(span) => quoted_span(&w, span, " is not a number of beats"),
        Problem::NotALength(n) => numbered(n, " is not a length"),
        Problem::BuildNeedsStagger => "build needs `stagger <beats>`".to_owned(),
        Problem::FourVoices(n) => {
            let mut text = "expected four voices low to high (bass tenor alto soprano), got ".to_owned();
            push_decimal(&mut text, n as u64);
            text
        },
        Problem::NotANote(span) => quoted_span(&w, span, " is not a note name"),
        Problem::SoloWho => "solo who?".to_owned(),
        Problem::NotAPart(span) => quoted_span(&w, span, " is not a part (bass tenor alto soprano)"),
        Problem::SoloNeedsUnder => "solo needs `under B T A S`".to_owned(),
        Problem::SoloNeedsSing => "solo needs `sing <notes>`".to_owned(),
        Problem::UnderBeforeSing => "`under` comes before `sing`".to_owned(),
        Problem::NotAVowel(span) => quoted_span(&w, span, " is not a vowel"),
        Problem::NotANoteLength(span) => quoted_span(&w, span, " is not a length"),
        Problem::CannotLast(n) => {
            let mut text = "a note cannot last ".to_owned();
            push_number(&mut text, n);
            push_text(&mut text, " beats");
            text
        },
        Problem::SoloRest => "a soloist cannot sing a rest — use `rest`".to_owned(),
        Problem::EmptySolo => "a solo with no notes in it".to_owned(),
        Problem::NotAGesture(span) => quoted_span(
            &w,
            span,
            " is not a gesture (chord build solo rest dynamic vowel)",
        ),
        Problem::Endless => "the piece is too long to count".to_owned(),
        Problem::Empty => "a score with no gestures in it is not a score".to_owned(),
    }
}

/// What went wrong, and where.
pub struct ParseError {
    /// Counted from one, as an editor counts.
    pub line: usize,
    pub text: String,
    pub problem: String,
}

impl ParseError {
    /// The line number, the problem and the line itself, so that a message stands alone in a log.
    pub fn message(&self) -> (text: String)
        ensures
            text@ == "line "@ + decimal(self.line as nat) + ": "@ + self.problem@ + "\n  "@ + trimmed(
                self.text@,
            ),
    {
        let mut text = "line ".to_owned();
        push_decimal(&mut text, self.line as u64);
        push_text(&mut text, ": ");
        push_text(&mut text, self.problem.as_str());
        push_text(&mut text, "\n  ");
        let chars = chars_of(self.text.as_str());
        let quote = text_of(trim(chars.as_slice()));
        push_text(&mut text, quote.as_str());
        text
    }
}

/// A piece that has been read.
pub struct Written {
    pub name: String,
    pub tempo: u64,
    pub gestures: Vec<Gesture>,
    pub vowel: Vowel,
    pub level: u8,
}

impl Written {
    pub open spec fn piece(self) -> Piece {
        Piece {
            name: self.name@,
            tempo: self.tempo,
            phrases: phrases(self.gestures@),
            vowel: self.vowel,
            level: self.level,
        }
    }

    /// Every gesture can be sung, and all of them together can be counted.
    pub open spec fn valid(self) -> bool {
        &&& total_ticks(phrases(self.gestures@)) <= u64::MAX
        &&& forall|i: int| 0 <= i < self.gestures@.len() ==> (#[trigger] self.gestures@[i])@.singable()
        &&& 20 * ONE <= self.tempo <= 300 * ONE
    }
}

/// What is wrong with a source: a line counted from one, zero for the whole, and the problem.
pub struct Fault {
    pub line: usize,
    pub problem: Problem,
}

/// Reads a source into gestures, without compiling them.
pub fn read(source: &str) -> (read: Result<Written, Fault>)
    ensures
        match source_read(source@) {
            Ok(piece) => read is Ok && read->Ok_0.piece() == piece,
            Err((line, problem)) => read is Err && read->Err_0.line == line && read->Err_0.problem
                == problem,
        },
        read matches Ok(w) ==> w.valid() && w.gestures@.len() > 0,
        read matches Err(f) ==> {
            &&& f.line <= lines_from(source@, 0).len()
            &&& f.line == 0 ==> f.problem == Problem::Empty
            &&& f.line > 0 ==> sayable(f.problem, content_of(lines_from(source@, 0)[f.line - 1]))
        },
{
    let chars = chars_of(source);
    let all = lines(chars.as_slice());
    let ghost said = lines_from(source@, 0);
    let mut written = Written {
        name: "untitled".to_owned(),
        tempo: 60_000_000_000,
        gestures: Vec::new(),
        vowel: Vowel::Ah,
        level: 70,
    };
    let mut total: u64 = 0;
    proof {
        assert(phrases(written.gestures@) =~= Seq::<Phrase>::empty());
        assert(written.piece() =~= untitled());
    }
    let mut at: usize = 0;
    while at < all.len()
        invariant
            at <= all@.len(),
            texts(all@) == said,
            said == lines_from(source@, 0),
            written.valid(),
            total == total_ticks(phrases(written.gestures@)),
            source_read(source@) == lines_read(said, at as int, written.piece()),
        decreases all@.len() - at,
    {
        proof {
            assert(said[at as int] == all@[at as int]@);
        }
        let raw = all[at].as_slice();
        let comment = find(raw, '#', 0);
        let content = trim(slice_subrange(raw, 0, comment));
        let line = match read_line(content, written.vowel, written.level) {
            Ok(line) => line,
            Err(problem) => {
                return Err(Fault { line: at + 1, problem });
            },
        };
        let ghost before = written.piece();
        match line {
            Read::Blank => {},
            Read::Name(name) => {
                written.name = text_of(name.as_slice());
                assert(written.piece() =~= (Piece { name: name@, ..before }));
            },
            Read::Tempo(tempo) => {
                written.tempo = tempo;
                assert(written.piece() =~= (Piece { tempo, ..before }));
            },
            Read::Level(level) => {
                written.level = level;
                assert(written.piece() =~= (Piece { level, ..before }));
            },
            Read::Vowel(vowel) => {
                written.vowel = vowel;
                assert(written.piece() =~= (Piece { vowel, ..before }));
            },
            Read::Gesture(gesture) => {
                let ghost phrase = gesture@;
                proof {
                    assert(before.phrases.push(phrase).drop_last() =~= before.phrases);
                }
                let ticks: u64 = match gesture.beats() {
                    Some(ticks) => ticks,
                    None => {
                        return Err(Fault { line: at + 1, problem: Problem::Endless });
                    },
                };
                if ticks > u64::MAX - total {
                    return Err(Fault { line: at + 1, problem: Problem::Endless });
                }
                total = total + ticks;
                let ghost held = written.gestures@;
                written.gestures.push(gesture);
                proof {
                    assert(phrases(written.gestures@) =~= before.phrases.push(phrase));
                    assert(written.piece() =~= (Piece {
                        phrases: before.phrases.push(phrase),
                        ..before
                    }));
                    assert forall|i: int| 0 <= i < written.gestures@.len() implies (
                    #[trigger] written.gestures@[i])@.singable() by {
                        if i < held.len() {
                            assert(written.gestures@[i] == held[i]);
                        }
                    }
                }
            },
        }
        at = at + 1;
    }
    if written.gestures.len() == 0 {
        return Err(Fault { line: 0, problem: Problem::Empty });
    }
    Ok(written)
}

/// The score a piece is.
pub open spec fn score_of(score: Score, piece: Piece) -> bool {
    &&& score.name@ == piece.name
    &&& score.tempo == Tempo { beats: piece.tempo, per: ONE }
    &&& score.ticks_per_beat == ONE
    &&& score.notes@ == tied(in_order(compiled(piece.phrases)), score.ticks_per_beat)
    &&& score.valid()
}

/// Parses a score.
pub fn parse(source: &str) -> (score: Result<Score, ParseError>)
    ensures
        match source_read(source@) {
            Ok(piece) => score is Ok && score_of(score->Ok_0, piece),
            Err((line, problem)) => {
                &&& score is Err
                &&& score->Err_0.line == line
                &&& line == 0 ==> score->Err_0.text@.len() == 0 && score->Err_0.problem@
                    == problem_words(Problem::Empty, Seq::empty())
                &&& line > 0 ==> score->Err_0.text@ == lines_from(source@, 0)[line - 1]
                    && score->Err_0.problem@ == problem_words(
                    problem,
                    content_of(lines_from(source@, 0)[line - 1]),
                )
            },
        },
{
    match read(source) {
        Ok(written) => Ok(
            Score::from_gestures(
                written.name.as_str(),
                Tempo { beats: written.tempo, per: ONE },
                ONE,
                written.gestures.as_slice(),
            ),
        ),
        Err(fault) => {
            if fault.line == 0 {
                let none: Vec<char> = Vec::new();
                return Err(
                    ParseError {
                        line: 0,
                        text: String::new(),
                        problem: describe(Problem::Empty, none.as_slice()),
                    },
                );
            }
            let chars = chars_of(source);
            let all = lines(chars.as_slice());
            proof {
                assert(texts(all@)[fault.line - 1] == all@[fault.line - 1]@);
            }
            let raw = all[fault.line - 1].as_slice();
            let comment = find(raw, '#', 0);
            let content = trim(slice_subrange(raw, 0, comment));
            Err(
                ParseError {
                    line: fault.line,
                    text: text_of(raw),
                    problem: describe(fault.problem, content),
                },
            )
        },
    }
}

proof fn lemma_skip_white(s: Seq<char>, from: int)
    requires
        0 <= from <= s.len(),
    ensures
        from <= skip_white(s, from) <= s.len(),
        skip_white(s, from) < s.len() ==> !white(s[skip_white(s, from)]),
    decreases s.len() - from,
{
    if from < s.len() && white(s[from]) {
        lemma_skip_white(s, from + 1);
    }
}

proof fn lemma_trim_end(s: Seq<char>, from: int, to: int)
    requires
        0 <= from <= to <= s.len(),
    ensures
        from <= trim_end(s, from, to) <= to,
        from < to && !white(s[from]) ==> from < trim_end(s, from, to),
    decreases to - from,
{
    if from < to && white(s[to - 1]) {
        lemma_trim_end(s, from, to - 1);
    }
}

/// A line's content begins with its first word.
proof fn lemma_first_word(raw: Seq<char>)
    ensures
        ({
            let content = content_of(raw);
            let w = words_from(content, 0);
            w.len() > 0 ==> {
                &&& 0 < w[0].len() <= content.len()
                &&& forall|i: int| 0 <= i < w[0].len() ==> #[trigger] w[0][i] == content[i]
            }
        }),
{
    let at = find_from(raw, '#', 0);
    let s = raw.subrange(0, at);
    lemma_find_bounds(raw, '#', 0);
    lemma_skip_white(s, 0);
    let from = skip_white(s, 0);
    lemma_trim_end(s, from, s.len() as int);
    let content = content_of(raw);
    assert(content == s.subrange(from, trim_end(s, from, s.len() as int)));
    if content.len() > 0 {
        assert(content[0] == s[from]);
        assert(!white(content[0]));
        assert(skip_white(content, 0) == 0);
    }
}

proof fn lemma_find_bounds(s: Seq<char>, c: char, from: int)
    requires
        0 <= from <= s.len(),
    ensures
        from <= find_from(s, c, from) <= s.len(),
    decreases s.len() - from,
{
    if from < s.len() && s[from] != c {
        lemma_find_bounds(s, c, from + 1);
    }
}

/// The words that begin the lines are told apart by their first letters.
proof fn lemma_marks(content: Seq<char>, w: Seq<Seq<char>>)
    requires
        w.len() > 0,
        0 < w[0].len() <= content.len(),
        forall|i: int| 0 <= i < w[0].len() ==> #[trigger] w[0][i] == content[i],
        w[0] == "rest"@ || w[0] == "chord"@ || w[0] == "build"@ || w[0] == "solo"@ || w[0] == "dynamic"@
            || w[0] == "vowel"@,
    ensures
        !stands_at(content, "name:"@, 0),
        !stands_at(content, "bpm:"@, 0),
        "rest"@ != "dynamic"@ && "rest"@ != "vowel"@,
        "chord"@ != "dynamic"@ && "chord"@ != "vowel"@ && "chord"@ != "rest"@,
        "build"@ != "dynamic"@ && "build"@ != "vowel"@ && "build"@ != "rest"@ && "build"@ != "chord"@,
        "solo"@ != "dynamic"@ && "solo"@ != "vowel"@ && "solo"@ != "rest"@ && "solo"@ != "chord"@ && "solo"@
            != "build"@,
        "vowel"@ != "dynamic"@,
{
    reveal_strlit("name:");
    reveal_strlit("bpm:");
    reveal_strlit("rest");
    reveal_strlit("chord");
    reveal_strlit("build");
    reveal_strlit("solo");
    reveal_strlit("dynamic");
    reveal_strlit("vowel");
    assert(w[0][0] == content[0] && w[0][1] == content[1]);
    if stands_at(content, "name:"@, 0) {
        assert(content.subrange(0, 5)[0] == content[0]);
    }
    if stands_at(content, "bpm:"@, 0) {
        assert(content.subrange(0, 4)[0] == content[0]);
        assert(content.subrange(0, 4)[1] == content[1]);
    }
    assert("rest"@[0] == 'r' && "chord"@[0] == 'c' && "build"@[0] == 'b' && "solo"@[0] == 's'
        && "dynamic"@[0] == 'd' && "vowel"@[0] == 'v');
}

/// Whether a word is a length that can be counted: more than nothing, in billionths of a beat, and
/// at least one where it is smaller than that.
pub open spec fn lasts(word: Seq<char>, ticks: u64) -> bool {
    number(word) matches Some(Number::Finite { negative, nanos, more }) && !negative && (nanos > 0 || more)
        && ticks == (if nanos > 0 {
        nanos as int
    } else {
        1
    })
}

/// A line that says `rest` and a length adds a rest of that length to the piece, and nothing else;
/// where it names no length, or one that cannot be counted, it is no line.
pub proof fn a_rest_is_added(piece: Piece, raw: Seq<char>, length: u64)
    requires
        word_is(words_from(content_of(raw), 0), 0, "rest"@),
    ensures
        ({
            let w = words_from(content_of(raw), 0);
            let read = line_read(piece, raw);
            &&& w.len() >= 2 && lasts(w[1], length) && total_ticks(piece.phrases) + length <= u64::MAX ==> {
                &&& read is Ok
                &&& read->Ok_0 == (Piece {
                    phrases: piece.phrases.push(Phrase::Rest { length }),
                    ..piece
                })
                &&& total_ticks(read->Ok_0.phrases) == total_ticks(piece.phrases) + length
            }
            &&& read is Ok ==> w.len() >= 2 && exists|n: u64| #[trigger] lasts(w[1], n)
        }),
{
    let content = content_of(raw);
    let w = words_from(content, 0);
    lemma_first_word(raw);
    lemma_marks(content, w);
    let now = piece.phrases.push(Phrase::Rest { length });
    assert(now.drop_last() =~= piece.phrases);
    if line_read(piece, raw) is Ok {
        assert(beats_at(w, 1) is Ok);
        assert(lasts(w[1], beats_at(w, 1)->Ok_0));
    }
}

/// The four words from `from` on name the notes of a voicing, low to high.
pub open spec fn names_voices(w: Seq<Seq<char>>, from: int, voicing: Seq<Option<u8>>) -> bool {
    &&& w.len() == from + 4
    &&& voicing.len() == 4
    &&& note_named(w[from]) == Some(voicing[0])
    &&& note_named(w[from + 1]) == Some(voicing[1])
    &&& note_named(w[from + 2]) == Some(voicing[2])
    &&& note_named(w[from + 3]) == Some(voicing[3])
}

proof fn lemma_voices(w: Seq<Seq<char>>, from: int, voicing: Seq<Option<u8>>)
    requires
        0 <= from <= w.len(),
    ensures
        names_voices(w, from, voicing) ==> voicing_at(w, from, w.len() as int) == Ok::<
            Seq<Option<u8>>,
            Problem,
        >(voicing),
        voicing_at(w, from, w.len() as int) is Ok ==> names_voices(
            w,
            from,
            voicing_at(w, from, w.len() as int)->Ok_0,
        ),
{
    reveal_with_fuel(bad_note, 6);
    if names_voices(w, from, voicing) {
        let made = Seq::new(4, |i: int| note_named(w[from + i])->0);
        assert(made[0] == voicing[0] && made[1] == voicing[1] && made[2] == voicing[2] && made[3]
            == voicing[3]);
        assert(made =~= voicing);
    }
}

/// A line that says `chord`, a length and four notes adds that chord, sung on the running vowel at
/// the running dynamic; anything else behind `chord` is no line.
pub proof fn a_chord_is_added(piece: Piece, raw: Seq<char>, length: u64, voicing: Seq<Option<u8>>)
    requires
        word_is(words_from(content_of(raw), 0), 0, "chord"@),
    ensures
        ({
            let w = words_from(content_of(raw), 0);
            let read = line_read(piece, raw);
            &&& names_voices(w, 2, voicing) && lasts(w[1], length) && total_ticks(piece.phrases) + length
                <= u64::MAX ==> {
                &&& read is Ok
                &&& read->Ok_0 == (Piece {
                    phrases: piece.phrases.push(
                        Phrase::Chord { voicing, length, vowel: piece.vowel, level: piece.level },
                    ),
                    ..piece
                })
                &&& total_ticks(read->Ok_0.phrases) == total_ticks(piece.phrases) + length
            }
            &&& read is Ok ==> (exists|n: u64| #[trigger] lasts(w[1], n)) && (exists|v: Seq<Option<u8>>|
                #[trigger] names_voices(w, 2, v))
        }),
{
    let content = content_of(raw);
    let w = words_from(content, 0);
    lemma_first_word(raw);
    lemma_marks(content, w);
    if w.len() >= 2 {
        lemma_voices(w, 2, voicing);
    }
    let now = piece.phrases.push(
        Phrase::Chord { voicing, length, vowel: piece.vowel, level: piece.level },
    );
    assert(now.drop_last() =~= piece.phrases);
    if line_read(piece, raw) is Ok {
        assert(beats_at(w, 1) is Ok);
        assert(lasts(w[1], beats_at(w, 1)->Ok_0));
    }
}

/// A line that says `build`, a length, `stagger` and how far apart the voices enter, and four notes
/// adds that build, from the bottom, or from the top where `top` stands before the notes.
pub proof fn a_build_is_added(
    piece: Piece,
    raw: Seq<char>,
    length: u64,
    stagger: u64,
    from_top: bool,
    voicing: Seq<Option<u8>>,
)
    requires
        word_is(words_from(content_of(raw), 0), 0, "build"@),
        word_is(words_from(content_of(raw), 0), 2, "stagger"@),
        from_top == word_is(words_from(content_of(raw), 0), 4, "top"@),
        lasts(words_from(content_of(raw), 0)[1], length),
        words_from(content_of(raw), 0).len() > 3,
        lasts(words_from(content_of(raw), 0)[3], stagger),
        names_voices(
            words_from(content_of(raw), 0),
            if from_top {
                5
            } else {
                4
            },
            voicing,
        ),
    ensures
        ({
            let now = piece.phrases.push(
                Phrase::Build {
                    voicing,
                    length,
                    stagger,
                    from_top,
                    vowel: piece.vowel,
                    level: piece.level,
                },
            );
            total_ticks(now) <= u64::MAX ==> line_read(piece, raw) == Ok::<Piece, Problem>(
                Piece { phrases: now, ..piece },
            )
        }),
{
    let content = content_of(raw);
    let w = words_from(content, 0);
    lemma_first_word(raw);
    lemma_marks(content, w);
    lemma_voices(
        w,
        if from_top {
            5
        } else {
            4
        },
        voicing,
    );
}

proof fn lemma_keyword(w: Seq<Seq<char>>, word: Seq<char>, from: int, at: int)
    requires
        0 <= from <= at <= w.len(),
        at < w.len() ==> w[at] == word,
        forall|k: int| from <= k < at ==> #[trigger] w[k] != word,
    ensures
        keyword(w, word, from) == at,
    decreases at - from,
{
    if from < at {
        assert(w[from] != word);
        lemma_keyword(w, word, from + 1, at);
    }
}

proof fn lemma_all_notes(w: Seq<Seq<char>>, from: int, to: int, running: Vowel, notes: Seq<SoloNote>)
    requires
        0 <= from <= to <= w.len(),
        notes.len() == to - from,
        forall|i: int|
            0 <= i < notes.len() ==> solo_note_at(w, from + i, running) == Ok::<SoloNote, Problem>(
                #[trigger] notes[i],
            ),
    ensures
        solo_notes(w, from, to, running) == Ok::<Seq<SoloNote>, Problem>(notes),
    decreases to - from,
{
    if from < to {
        let before = notes.drop_last();
        assert forall|i: int| 0 <= i < before.len() implies solo_note_at(w, from + i, running) == Ok::<
            SoloNote,
            Problem,
        >(#[trigger] before[i]) by {
            assert(before[i] == notes[i]);
        }
        lemma_all_notes(w, from, to - 1, running, before);
        assert(notes[to - 1 - from] == notes.last());
        assert(before.push(notes.last()) =~= notes);
    } else {
        assert(notes =~= Seq::<SoloNote>::empty());
    }
}

/// A line that says `solo`, a part, `under` and four notes, `sing` and the soloist's notes adds that
/// solo. The others hum, unless `hum` and a vowel stand before `sing`.
pub proof fn a_solo_is_added(
    piece: Piece,
    raw: Seq<char>,
    part: Part,
    hum: Option<Vowel>,
    under: Seq<Option<u8>>,
    notes: Seq<SoloNote>,
)
    requires
        word_is(words_from(content_of(raw), 0), 0, "solo"@),
        ({
            let w = words_from(content_of(raw), 0);
            let sing: int = if hum is Some {
                9
            } else {
                7
            };
            &&& w.len() > sing + 1
            &&& part_word(ascii_lowered(w[1])) == Some(part)
            &&& w[2] == "under"@
            &&& w[sing] == "sing"@
            &&& hum matches Some(vowel) ==> w[7] == "hum"@ && Vowel::named(ascii_lowered(w[8])) == Some(vowel)
            &&& forall|k: int| 0 <= k < w.len() && k != 2 ==> #[trigger] w[k] != "under"@
            &&& forall|k: int| 0 <= k < w.len() && k != sing ==> #[trigger] w[k] != "sing"@
            &&& forall|k: int| 0 <= k < w.len() && (k != 7 || hum is None) ==> #[trigger] w[k] != "hum"@
            &&& names_voices(w.take(7), 3, under)
            &&& notes.len() == w.len() - sing - 1
            &&& forall|i: int|
                0 <= i < notes.len() ==> solo_note_at(w, sing + 1 + i, piece.vowel) == Ok::<
                    SoloNote,
                    Problem,
                >(#[trigger] notes[i])
        }),
    ensures
        ({
            let now = piece.phrases.push(
                Phrase::Solo {
                    part,
                    notes,
                    under,
                    under_vowel: match hum {
                        Some(vowel) => vowel,
                        None => Vowel::Mm,
                    },
                    level: piece.level,
                },
            );
            total_ticks(now) <= u64::MAX ==> line_read(piece, raw) == Ok::<Piece, Problem>(
                Piece { phrases: now, ..piece },
            )
        }),
{
    let content = content_of(raw);
    let w = words_from(content, 0);
    lemma_first_word(raw);
    lemma_marks(content, w);
    let sing: int = if hum is Some {
        9
    } else {
        7
    };
    lemma_keyword(w, "under"@, 0, 2);
    lemma_keyword(w, "sing"@, 0, sing);
    if hum is Some {
        lemma_keyword(w, "hum"@, 0, 7);
    } else {
        lemma_keyword(w, "hum"@, 0, w.len() as int);
    }
    let head = w.take(7);
    reveal_with_fuel(bad_note, 6);
    assert(head[3] == w[3] && head[4] == w[4] && head[5] == w[5] && head[6] == w[6]);
    assert(voicing_at(w, 3, 7) == Ok::<Seq<Option<u8>>, Problem>(under)) by {
        let made = Seq::new(4, |i: int| note_named(w[3 + i])->0);
        assert(made[0] == under[0] && made[1] == under[1] && made[2] == under[2] && made[3] == under[3]);
        assert(made =~= under);
    }
    lemma_all_notes(w, sing + 1, w.len() as int, piece.vowel, notes);
}

/// A soloist's note is its pitch, with a length behind a colon and a vowel behind a slash. Without a
/// length it lasts a beat, and without a vowel it is sung on the running one.
pub proof fn what_a_solo_note_says(
    w: Seq<Seq<char>>,
    k: int,
    running: Vowel,
    name: Seq<char>,
    time: Option<Seq<char>>,
    sung: Option<Seq<char>>,
    midi: u8,
    length: u64,
)
    requires
        0 <= k < w.len(),
        w[k] == name + (match time {
            Some(t) => seq![':'] + t,
            None => Seq::empty(),
        }) + (match sung {
            Some(v) => seq!['/'] + v,
            None => Seq::empty(),
        }),
        forall|i: int| 0 <= i < name.len() ==> name[i] != '/' && name[i] != ':',
        time matches Some(t) ==> (forall|i: int| 0 <= i < t.len() ==> t[i] != '/') && lasts(t, length),
        time is None ==> length == 1_000_000_000,
        sung matches Some(v) ==> Vowel::named(ascii_lowered(v)) is Some,
        note_named(name) == Some(Some(midi)),
    ensures
        solo_note_at(w, k, running) == Ok::<SoloNote, Problem>(
            SoloNote {
                midi,
                length,
                vowel: match sung {
                    Some(v) => Vowel::named(ascii_lowered(v))->0,
                    None => running,
                },
            },
        ),
{
    let word = w[k];
    let timed = match time {
        Some(t) => seq![':'] + t,
        None => Seq::empty(),
    };
    let head = name + timed;
    assert forall|i: int| 0 <= i < head.len() implies head[i] != '/' by {
        if i < name.len() {
            assert(head[i] == name[i]);
        } else {
            assert(head[i] == timed[i - name.len()]);
        }
    }
    match sung {
        Some(v) => {
            assert(word =~= head + seq!['/'] + v);
            lemma_find_prefix(head, v, '/', 0);
            assert(word.subrange((head.len() + 1) as int, word.len() as int) =~= v);
        },
        None => {
            assert(word =~= head);
            lemma_find_none(word, '/', 0);
        },
    }
    assert(word.subrange(0, head.len() as int) =~= head);
    match time {
        Some(t) => {
            assert(head =~= name + seq![':'] + t);
            lemma_find_prefix(name, t, ':', 0);
            assert(head.subrange((name.len() + 1) as int, head.len() as int) =~= t);
        },
        None => {
            assert(head =~= name);
            lemma_find_none(head, ':', 0);
        },
    }
    assert(head.subrange(0, name.len() as int) =~= name);
}

proof fn lemma_find_none(s: Seq<char>, c: char, from: int)
    requires
        0 <= from <= s.len(),
        forall|i: int| 0 <= i < s.len() ==> s[i] != c,
    ensures
        find_from(s, c, from) == s.len(),
    decreases s.len() - from,
{
    if from < s.len() {
        assert(s[from] != c);
        lemma_find_none(s, c, from + 1);
    }
}

/// A dynamic and a vowel are set by the line that marks them, and by nothing else in it; a word that
/// is none is refused.
pub proof fn a_mark_is_set(piece: Piece, raw: Seq<char>)
    ensures
        ({
            let w = words_from(content_of(raw), 0);
            let read = line_read(piece, raw);
            &&& word_is(w, 0, "dynamic"@) ==> {
                &&& read is Ok <==> w.len() >= 2 && marked(ascii_lowered(w[1])) is Some
                &&& read is Ok ==> read->Ok_0 == (Piece { level: marked(ascii_lowered(w[1]))->0, ..piece })
            }
            &&& word_is(w, 0, "vowel"@) ==> {
                &&& read is Ok <==> w.len() >= 2 && Vowel::named(ascii_lowered(w[1])) is Some
                &&& read is Ok ==> read->Ok_0 == (Piece {
                    vowel: Vowel::named(ascii_lowered(w[1]))->0,
                    ..piece
                })
            }
            &&& w.len() == 0 ==> read == Ok::<Piece, Problem>(piece)
        }),
{
    let content = content_of(raw);
    let w = words_from(content, 0);
    lemma_first_word(raw);
    if word_is(w, 0, "dynamic"@) || word_is(w, 0, "vowel"@) {
        lemma_marks(content, w);
    }
}

/// A name is what stands behind `name:`, and a tempo the number behind `bpm:`, from twenty to three
/// hundred beats a minute; each changes that one thing.
pub proof fn a_title_and_a_tempo_are_set(piece: Piece, raw: Seq<char>)
    requires
        words_from(content_of(raw), 0).len() > 0,
    ensures
        stands_at(content_of(raw), "name:"@, 0) ==> line_read(piece, raw) == Ok::<Piece, Problem>(
            Piece { name: trimmed(content_of(raw).subrange(5, content_of(raw).len() as int)), ..piece },
        ),
        stands_at(content_of(raw), "bpm:"@, 0) ==> {
            let said = number(trimmed(content_of(raw).subrange(4, content_of(raw).len() as int)));
            let read = line_read(piece, raw);
            &&& read is Ok <==> (said matches Some(Number::Finite { negative, nanos, more }) && !negative
                && 20_000_000_000 <= nanos && (nanos < 300_000_000_000 || (nanos == 300_000_000_000
                && !more)))
            &&& read is Ok ==> read->Ok_0 == (Piece {
                tempo: said->0->nanos as u64,
                ..piece
            })
        },
{
    reveal_strlit("name:");
    reveal_strlit("bpm:");
    let content = content_of(raw);
    if stands_at(content, "name:"@, 0) && stands_at(content, "bpm:"@, 0) {
        assert(content.subrange(0, 5)[0] == content[0]);
        assert(content.subrange(0, 4)[0] == content[0]);
    }
}

/// A line that begins with any other word is refused.
pub proof fn nothing_else_is_a_line(piece: Piece, raw: Seq<char>)
    requires
        ({
            let w = words_from(content_of(raw), 0);
            &&& w.len() > 0
            &&& w[0] != "rest"@ && w[0] != "chord"@ && w[0] != "build"@ && w[0] != "solo"@ && w[0]
                != "dynamic"@ && w[0] != "vowel"@
            &&& !stands_at(content_of(raw), "name:"@, 0)
            &&& !stands_at(content_of(raw), "bpm:"@, 0)
        }),
    ensures
        line_read(piece, raw) is Err,
        line_read(piece, raw)->Err_0 is NotAGesture,
{
}

/// A letter is its step above C in the octave that its number names, where C4 is 60: seven naturals,
/// capital or not.
pub proof fn letters_are_steps(word: Seq<char>, octave: int)
    requires
        word.len() >= 2,
        bend(word[1]) == 0,
        integer(word.subrange(1, word.len() as int)) == Some(octave),
        0 <= octave <= 8,
    ensures
        word[0] == 'C' || word[0] == 'c' ==> note_named(word) == Some(Some((12 * octave + 12) as u8)),
        word[0] == 'D' || word[0] == 'd' ==> note_named(word) == Some(Some((12 * octave + 14) as u8)),
        word[0] == 'E' || word[0] == 'e' ==> note_named(word) == Some(Some((12 * octave + 16) as u8)),
        word[0] == 'F' || word[0] == 'f' ==> note_named(word) == Some(Some((12 * octave + 17) as u8)),
        word[0] == 'G' || word[0] == 'g' ==> note_named(word) == Some(Some((12 * octave + 19) as u8)),
        word[0] == 'A' || word[0] == 'a' ==> note_named(word) == Some(Some((12 * octave + 21) as u8)),
        word[0] == 'B' || word[0] == 'b' ==> note_named(word) == Some(Some((12 * octave + 23) as u8)),
{
    reveal_strlit("-");
    assert("-"@.len() == 1);
    let c = word[0];
    assert('A' <= c && c <= 'Z' ==> (c as u8 + 32) as u8 as char == (c as int + 32) as char);
}

proof fn lemma_bends_shift(a: Seq<char>, b: Seq<char>, from: int)
    requires
        1 <= from <= a.len(),
        b.len() == a.len() + 1,
        forall|i: int| 1 <= i < a.len() ==> #[trigger] b[i + 1] == a[i],
    ensures
        bends_end(b, from + 1) == bends_end(a, from) + 1,
        bends_sum(b, from + 1) == bends_sum(a, from),
        from <= bends_end(a, from) <= a.len(),
    decreases a.len() - from,
{
    if from < a.len() {
        assert(b[from + 1] == a[from]);
        if bend(a[from]) != 0 {
            lemma_bends_shift(a, b, from + 1);
        }
    }
}

/// A sharp behind the letter raises a note by a semitone and a flat lowers it by one, however many
/// stand there already.
pub proof fn accidentals_move_a_note(word: Seq<char>, midi: u8, mark: char)
    requires
        note_named(word) == Some(Some(midi)),
        0 < midi < 127,
    ensures
        mark == '#' || mark == 's' ==> note_named(seq![word[0], mark] + word.skip(1)) == Some(
            Some((midi + 1) as u8),
        ),
        mark == 'b' || mark == 'f' ==> note_named(seq![word[0], mark] + word.skip(1)) == Some(
            Some((midi - 1) as u8),
        ),
{
    reveal_strlit("-");
    let bent = seq![word[0], mark] + word.skip(1);
    assert(word.len() > 0);
    assert forall|i: int| 1 <= i < word.len() implies #[trigger] bent[i + 1] == word[i] by {
        assert(bent[i + 1] == word.skip(1)[i - 1]);
    }
    lemma_bends_shift(word, bent, 1);
    assert(bent[0] == word[0] && bent[1] == mark);
    assert(bent != "-"@) by {
        assert("-"@.len() == 1);
    }
    let end = bends_end(word, 1);
    if bend(mark) != 0 {
        assert(bends_end(bent, 1) == end + 1);
        assert(bent.subrange(end + 1, bent.len() as int) =~= word.subrange(end, word.len() as int)) by {
            assert forall|i: int| 0 <= i < word.len() - end implies bent.subrange(
                end + 1,
                bent.len() as int,
            )[i] == word.subrange(end, word.len() as int)[i] by {
                assert(bent[(end + i) + 1] == word[end + i]);
            }
        }
    }
}

/// A hyphen is a voice that does not sing, and only a hyphen is.
pub proof fn a_hyphen_is_silence(word: Seq<char>)
    ensures
        note_named(word) == Some(None::<u8>) <==> word == "-"@,
        note_named(word) matches Some(Some(midi)) ==> midi <= 127,
{
}

/// A piece begins untitled, at sixty beats a minute, on `ah` and moderately loud; and one without a
/// gesture is none.
pub proof fn how_a_piece_begins(all: Seq<Seq<char>>, k: int, piece: Piece)
    requires
        k >= all.len(),
    ensures
        untitled().name == "untitled"@,
        untitled().tempo == 60_000_000_000,
        untitled().phrases.len() == 0,
        untitled().vowel == Vowel::Ah,
        marked("mf"@) == Some(untitled().level),
        lines_read(all, k, piece) is Ok <==> piece.phrases.len() > 0,
        lines_read(all, k, piece) is Ok ==> lines_read(all, k, piece)->Ok_0 == piece,
{
    reveal_strlit("ppp");
    reveal_strlit("pp");
    reveal_strlit("p");
    reveal_strlit("mp");
    reveal_strlit("mf");
    assert("mf"@[1] == 'f' && "mp"@[1] == 'p' && "pp"@[0] == 'p' && "mf"@[0] == 'm');
}

/// Lines are read in order, each into the piece that those above it made, and the first that cannot be
/// read is the one that is named.
pub proof fn lines_are_read_in_order(all: Seq<Seq<char>>, k: int, piece: Piece)
    requires
        0 <= k < all.len(),
    ensures
        line_read(piece, all[k]) matches Ok(now) ==> lines_read(all, k, piece) == lines_read(
            all,
            k + 1,
            now,
        ),
        line_read(piece, all[k]) matches Err(p) ==> lines_read(all, k, piece) == Err::<
            Piece,
            (int, Problem),
        >((k + 1, p)),
{
}

/// What is said of a word that is not what it should be begins with that word, quoted.
pub proof fn a_problem_quotes_the_word(content: Seq<char>, span: Span)
    ensures
        ({
            let word = debug_text(spanned(words_from(content, 0), span));
            &&& word.is_prefix_of(problem_words(Problem::NotADynamic(span), content))
            &&& word.is_prefix_of(problem_words(Problem::NotAVowelMark(span), content))
            &&& word.is_prefix_of(problem_words(Problem::NotBeats(span), content))
            &&& word.is_prefix_of(problem_words(Problem::NotANote(span), content))
            &&& word.is_prefix_of(problem_words(Problem::NotAPart(span), content))
            &&& word.is_prefix_of(problem_words(Problem::NotAVowel(span), content))
            &&& word.is_prefix_of(problem_words(Problem::NotANoteLength(span), content))
            &&& word.is_prefix_of(problem_words(Problem::NotAGesture(span), content))
        }),
{
}

/// A source is read line by line from a piece that is untitled, and the score is that piece's: its name,
/// its tempo in beats a minute, and its gestures.
pub proof fn what_a_source_comes_to(source: Seq<char>, score: Score, piece: Piece)
    requires
        score_of(score, piece),
    ensures
        source_read(source) == lines_read(lines_from(source, 0), 0, untitled()),
        score.name@ == piece.name,
        score.tempo.beats == piece.tempo && score.tempo.per == 1_000_000_000,
        score.ticks_per_beat == 1_000_000_000,
{
}

} // verus!
