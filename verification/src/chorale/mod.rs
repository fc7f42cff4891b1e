//! Several ducks singing one thing: the score, and who sings what.
//!
//! **Identity is timbre, not pitch.** Every duck's voice is its own, but the notes are
//! absolute: four ducks each singing a chord in their own tuning are four ducks out of tune
//! with each other. A duck's register decides its *part* instead: the lowest duck sings bass.

pub mod beat;
pub mod midi;
pub mod score;
pub mod seating;
pub mod text;

use vstd::prelude::*;

verus! {

/// The four parts, low to high.
#[derive(Debug, Clone, Copy, PartialEq, Eq, PartialOrd, Ord, Structural)]
pub enum Part {
    Bass,
    Tenor,
    Alto,
    Soprano,
}

impl Part {
    /// Where the part stands among the four, from the bottom.
    pub open spec fn rank(self) -> nat {
        match self {
            Part::Bass => 0,
            Part::Tenor => 1,
            Part::Alto => 2,
            Part::Soprano => 3,
        }
    }

    /// The part at a place among the four.
    pub open spec fn ranked(rank: int) -> Part {
        if rank <= 0 {
            Part::Bass
        } else if rank == 1 {
            Part::Tenor
        } else if rank == 2 {
            Part::Alto
        } else {
            Part::Soprano
        }
    }

    pub fn index(self) -> (i: usize)
        ensures
            i == self.rank(),
            i < 4,
    {
        match self {
            Part::Bass => 0,
            Part::Tenor => 1,
            Part::Alto => 2,
            Part::Soprano => 3,
        }
    }

    pub fn at(i: usize) -> (part: Part)
        ensures
            part == Part::ranked(i as int),
    {
        if i == 0 {
            Part::Bass
        } else if i == 1 {
            Part::Tenor
        } else if i == 2 {
            Part::Alto
        } else {
            Part::Soprano
        }
    }

    /// The part's name.
    pub open spec fn name(self) -> Seq<char> {
        match self {
            Part::Bass => "bass"@,
            Part::Tenor => "tenor"@,
            Part::Alto => "alto"@,
            Part::Soprano => "soprano"@,
        }
    }

    pub fn as_str(&self) -> (name: &'static str)
        ensures
            name@ == self.name(),
    {
        match self {
            Part::Bass => "bass",
            Part::Tenor => "tenor",
            Part::Alto => "alto",
            Part::Soprano => "soprano",
        }
    }

    /// Roughly where this part sits, as a MIDI number: the middle of the range it keeps to.
    pub open spec fn centre(self) -> int {
        match self {
            Part::Bass => 51,
            Part::Tenor => 58,
            Part::Alto => 63,
            Part::Soprano => 68,
        }
    }

    pub fn register(&self) -> (midi: i64)
        ensures
            midi == self.centre(),
    {
        match self {
            Part::Bass => 51,
            Part::Tenor => 58,
            Part::Alto => 63,
            Part::Soprano => 68,
        }
    }

    /// The parts an ensemble of `n` sings, low to high.
    pub open spec fn ensemble_parts(n: nat) -> Seq<Part> {
        if n == 0 {
            Seq::empty()
        } else if n == 1 {
            seq![Part::Soprano]
        } else if n == 2 {
            seq![Part::Bass, Part::Soprano]
        } else if n == 3 {
            seq![Part::Bass, Part::Alto, Part::Soprano]
        } else {
            seq![Part::Bass, Part::Tenor, Part::Alto, Part::Soprano]
        }
    }

    /// Which parts an ensemble of `n` ducks sings.
    ///
    /// Not simply the lowest `n`: a chord needs its outer voices most, so a duet is bass and
    /// soprano. A trio drops the tenor, the voice most often doubled elsewhere in the chord.
    pub fn ensemble(n: usize) -> (parts: Vec<Part>)
        ensures
            parts@ == Part::ensemble_parts(n as nat),
    {
        if n == 0 {
            Vec::new()
        } else if n == 1 {
            vec![Part::Soprano]
        } else if n == 2 {
            vec![Part::Bass, Part::Soprano]
        } else if n == 3 {
            vec![Part::Bass, Part::Alto, Part::Soprano]
        } else {
            vec![Part::Bass, Part::Tenor, Part::Alto, Part::Soprano]
        }
    }
}

/// The ensembles are nested: whoever sings in a small one sings the same part in a larger one,
/// and up to four ducks each newcomer finds exactly one part newly open.
pub proof fn ensembles_are_nested(n: nat)
    ensures
        forall|part: Part| #[trigger]
            Part::ensemble_parts(n).contains(part) ==> Part::ensemble_parts(n + 1).contains(part),
        n < 4 ==> Part::ensemble_parts(n + 1).len() == Part::ensemble_parts(n).len() + 1,
        Part::ensemble_parts(n).no_duplicates(),
{
    let small = Part::ensemble_parts(n);
    let large = Part::ensemble_parts(n + 1);
    assert forall|part: Part| #[trigger] small.contains(part) implies large.contains(part) by {
        let i = choose|i: int| 0 <= i < small.len() && small[i] == part;
        if n == 0 {
        } else if n == 1 {
            assert(large[1] == part);
        } else if n == 2 {
            assert(large[0] == part || large[2] == part);
        } else if n == 3 {
            assert(large[0] == part || large[2] == part || large[3] == part);
        } else {
            assert(large[i] == part);
        }
    }
}

/// The parts come low to high in every ensemble.
pub proof fn ensembles_rise(n: nat, i: int, j: int)
    requires
        0 <= i < j < Part::ensemble_parts(n).len(),
    ensures
        Part::ensemble_parts(n)[i].rank() < Part::ensemble_parts(n)[j].rank(),
{
}

/// A sung vowel: a mouth opening and a formant position.
///
/// The mouth opening is the *same number* the beak servo gets, so the vowel is visible as well
/// as audible.
#[derive(Debug, Clone, Copy, PartialEq, Eq, Structural)]
pub enum Vowel {
    /// Full and open. The default, and what a chord wants when it lands.
    Ah,
    Eh,
    /// Bright and narrow.
    Ee,
    Oh,
    /// Dark and closed. The pad under a solo.
    Oo,
    /// A closed hum, quieter than the rest.
    Mm,
}

impl Default for Vowel {
    fn default() -> (v: Self)
        ensures
            v == Vowel::Ah,
    {
        Vowel::Ah
    }
}

impl Vowel {
    /// How far the beak opens on a vowel, in hundredths.
    pub open spec fn opening(self) -> u8 {
        match self {
            Vowel::Ah => 90,
            Vowel::Eh => 65,
            Vowel::Ee => 45,
            Vowel::Oh => 55,
            Vowel::Oo => 35,
            Vowel::Mm => 5,
        }
    }

    /// How far the beak opens on it, in hundredths.
    pub fn open(&self) -> (hundredths: u8)
        ensures
            hundredths == self.opening(),
            hundredths <= 100,
    {
        match self {
            Vowel::Ah => 90,
            Vowel::Eh => 65,
            Vowel::Ee => 45,
            Vowel::Oh => 55,
            Vowel::Oo => 35,
            Vowel::Mm => 5,
        }
    }

    /// How bright a vowel is: where it puts the formant, in harmonics.
    pub open spec fn brightness(self) -> int {
        match self {
            Vowel::Ah => 0,
            Vowel::Eh => 1,
            Vowel::Ee => 3,
            Vowel::Oh => -1,
            Vowel::Oo => -2,
            Vowel::Mm => -2,
        }
    }

    /// Where it puts the formant, in harmonics relative to this duck's own.
    pub fn formant_shift(&self) -> (shift: i8)
        ensures
            shift == self.brightness(),
    {
        match self {
            Vowel::Ah => 0,
            Vowel::Eh => 1,
            Vowel::Ee => 3,
            Vowel::Oh => -1,
            Vowel::Oo => -2,
            Vowel::Mm => -2,
        }
    }

    /// How much of the written dynamic is sung, in hundredths: a hum sits back in the mix.
    pub fn level_scale(&self) -> (scale: u8)
        ensures
            scale == (if *self == Vowel::Mm {
                65u8
            } else {
                100u8
            }),
    {
        match self {
            Vowel::Mm => 65,
            _ => 100,
        }
    }

    /// The vowel's name.
    pub open spec fn name(self) -> Seq<char> {
        match self {
            Vowel::Ah => "ah"@,
            Vowel::Eh => "eh"@,
            Vowel::Ee => "ee"@,
            Vowel::Oh => "oh"@,
            Vowel::Oo => "oo"@,
            Vowel::Mm => "mm"@,
        }
    }

    pub fn as_str(&self) -> (name: &'static str)
        ensures
            name@ == self.name(),
    {
        match self {
            Vowel::Ah => "ah",
            Vowel::Eh => "eh",
            Vowel::Ee => "ee",
            Vowel::Oh => "oh",
            Vowel::Oo => "oo",
            Vowel::Mm => "mm",
        }
    }

    /// What a lower-case word means as a vowel.
    pub open spec fn named(word: Seq<char>) -> Option<Vowel> {
        if word == "ah"@ || word == "a"@ {
            Some(Vowel::Ah)
        } else if word == "eh"@ || word == "e"@ {
            Some(Vowel::Eh)
        } else if word == "ee"@ || word == "i"@ {
            Some(Vowel::Ee)
        } else if word == "oh"@ || word == "o"@ {
            Some(Vowel::Oh)
        } else if word == "oo"@ || word == "u"@ {
            Some(Vowel::Oo)
        } else if word == "mm"@ || word == "m"@ || word == "hum"@ {
            Some(Vowel::Mm)
        } else {
            None
        }
    }

    /// The vowel a word names, capitals aside.
    pub fn parse(word: &str) -> (vowel: Option<Vowel>)
        ensures
            vowel == Vowel::named(crate::scan::ascii_lowered(word@)),
    {
        let chars = crate::scan::chars_of(word);
        Vowel::parse_chars(chars.as_slice())
    }

    pub(crate) fn parse_chars(word: &[char]) -> (vowel: Option<Vowel>)
        ensures
            vowel == Vowel::named(crate::scan::ascii_lowered(word@)),
    {
        let lower = crate::scan::lowered(word);
        let w = lower.as_slice();
        if crate::scan::spells(w, "ah") || crate::scan::spells(w, "a") {
            Some(Vowel::Ah)
        } else if crate::scan::spells(w, "eh") || crate::scan::spells(w, "e") {
            Some(Vowel::Eh)
        } else if crate::scan::spells(w, "ee") || crate::scan::spells(w, "i") {
            Some(Vowel::Ee)
        } else if crate::scan::spells(w, "oh") || crate::scan::spells(w, "o") {
            Some(Vowel::Oh)
        } else if crate::scan::spells(w, "oo") || crate::scan::spells(w, "u") {
            Some(Vowel::Oo)
        } else if crate::scan::spells(w, "mm") || crate::scan::spells(w, "m") || crate::scan::spells(
            w,
            "hum",
        ) {
            Some(Vowel::Mm)
        } else {
            None
        }
    }
}

/// Every vowel is read back from the name it goes by.
pub proof fn a_vowels_name_names_it(vowel: Vowel)
    ensures
        Vowel::named(crate::scan::ascii_lowered(vowel.name())) == Some(vowel),
{
    reveal_strlit("ah");
    reveal_strlit("a");
    reveal_strlit("eh");
    reveal_strlit("e");
    reveal_strlit("ee");
    reveal_strlit("i");
    reveal_strlit("oh");
    reveal_strlit("o");
    reveal_strlit("oo");
    reveal_strlit("u");
    reveal_strlit("mm");
    reveal_strlit("m");
    reveal_strlit("hum");
    let name = vowel.name();
    assert(crate::scan::ascii_lowered(name) =~= name);
    assert("ah"@[1] == 'h' && "eh"@[0] == 'e' && "ee"@[1] == 'e' && "oh"@[0] == 'o' && "oo"@[1] == 'o'
        && "mm"@[0] == 'm');
    assert("ah"@[0] == 'a' && "eh"@[1] == 'h' && "ee"@[0] == 'e' && "oh"@[1] == 'h' && "oo"@[0] == 'o'
        && "mm"@[1] == 'm');
}

/// What a lower-case mark means as a dynamic, in hundredths of full level.
pub open spec fn marked(mark: Seq<char>) -> Option<u8> {
    if mark == "ppp"@ {
        Some(15)
    } else if mark == "pp"@ {
        Some(25)
    } else if mark == "p"@ {
        Some(40)
    } else if mark == "mp"@ {
        Some(55)
    } else if mark == "mf"@ {
        Some(70)
    } else if mark == "f"@ {
        Some(85)
    } else if mark == "ff"@ {
        Some(100)
    } else {
        None
    }
}

/// The classical dynamic marks, as hundredths of full level.
///
/// A named ramp rather than raw numbers in the score, because `mf` is what anyone writing music
/// actually means.
pub fn dynamic(mark: &str) -> (level: Option<u8>)
    ensures
        level == marked(crate::scan::ascii_lowered(mark@)),
{
    let chars = crate::scan::chars_of(mark);
    dynamic_chars(chars.as_slice())
}

pub(crate) fn dynamic_chars(mark: &[char]) -> (level: Option<u8>)
    ensures
        level == marked(crate::scan::ascii_lowered(mark@)),
{
    let lower = crate::scan::lowered(mark);
    let w = lower.as_slice();
    if crate::scan::spells(w, "ppp") {
        Some(15)
    } else if crate::scan::spells(w, "pp") {
        Some(25)
    } else if crate::scan::spells(w, "p") {
        Some(40)
    } else if crate::scan::spells(w, "mp") {
        Some(55)
    } else if crate::scan::spells(w, "mf") {
        Some(70)
    } else if crate::scan::spells(w, "f") {
        Some(85)
    } else if crate::scan::spells(w, "ff") {
        Some(100)
    } else {
        None
    }
}

/// A voicing with a tacet voice allowed: `None` is a part that does not sing here.
pub type Voicing = [Option<u8>; 4];

/// Four voices in unison rhythm: the plain block chord.
pub fn chord(bass: u8, tenor: u8, alto: u8, soprano: u8) -> (voicing: Voicing)
    ensures
        voicing@ == seq![Some(bass), Some(tenor), Some(alto), Some(soprano)],
{
    [Some(bass), Some(tenor), Some(alto), Some(soprano)]
}

/// The parts stand low to high, each has its place among the four, and the higher part keeps to the
/// higher range. The ranges span less than an octave and a half, around middle C.
pub proof fn parts_stand_low_to_high(part: Part, other: Part)
    ensures
        Part::ranked(part.rank() as int) == part,
        part.rank() < 4,
        part.rank() < other.rank() <==> part.centre() < other.centre(),
        part.rank() == other.rank() ==> part == other,
        Part::Bass.rank() == 0,
        Part::Soprano.rank() == 3,
        51 <= part.centre() <= 68,
        Part::Bass.centre() == 51,
        Part::Tenor.centre() == 58,
        Part::Alto.centre() == 63,
        Part::Soprano.centre() == 68,
{
}

/// A chord needs its outer voices most: a lone duck sings soprano, and from two on somebody sings bass
/// and somebody soprano. A trio does without the tenor, and no more than four parts are sung.
pub proof fn the_outer_voices_are_sung(n: nat)
    ensures
        Part::ensemble_parts(n).len() == (if n < 4 {
            n
        } else {
            4
        }),
        n >= 1 ==> Part::ensemble_parts(n).last() == Part::Soprano,
        n >= 2 ==> Part::ensemble_parts(n)[0] == Part::Bass,
        n >= 3 ==> Part::ensemble_parts(n).contains(Part::Alto),
        Part::ensemble_parts(n).contains(Part::Tenor) <==> n >= 4,
{
    let parts = Part::ensemble_parts(n);
    if n == 3 {
        assert(parts[1] == Part::Alto);
    }
    if n >= 4 {
        assert(parts[2] == Part::Alto && parts[1] == Part::Tenor);
    }
}

/// The beak opens widest on `ah` and is all but closed on a hum; `ee` is the brightest vowel, and `oo`
/// and the hum are the darkest.
pub proof fn what_vowels_are_like(vowel: Vowel)
    ensures
        vowel.opening() <= Vowel::Ah.opening() == 90,
        vowel.opening() >= Vowel::Mm.opening() == 5,
        Vowel::Ah.opening() > Vowel::Eh.opening() > Vowel::Oh.opening() > Vowel::Ee.opening()
            > Vowel::Oo.opening() > Vowel::Mm.opening(),
        Vowel::Eh.opening() == 65 && Vowel::Oh.opening() == 55 && Vowel::Ee.opening() == 45
            && Vowel::Oo.opening() == 35,
        vowel.brightness() <= Vowel::Ee.brightness() == 3,
        vowel.brightness() >= Vowel::Oo.brightness() == -2,
        Vowel::Mm.brightness() == Vowel::Oo.brightness(),
        Vowel::Ee.brightness() > Vowel::Eh.brightness() > Vowel::Ah.brightness()
            > Vowel::Oh.brightness() > Vowel::Oo.brightness(),
        Vowel::Ah.brightness() == 0,
{
}

/// The dynamic marks are a ramp, from barely audible to full level, and there are seven of them.
pub proof fn dynamics_rise(mark: Seq<char>)
    ensures
        marked("ppp"@) == Some(15u8),
        marked("pp"@) == Some(25u8),
        marked("p"@) == Some(40u8),
        marked("mp"@) == Some(55u8),
        marked("mf"@) == Some(70u8),
        marked("f"@) == Some(85u8),
        marked("ff"@) == Some(100u8),
        marked(mark) is Some <==> mark == "ppp"@ || mark == "pp"@ || mark == "p"@ || mark == "mp"@ || mark
            == "mf"@ || mark == "f"@ || mark == "ff"@,
{
    reveal_strlit("ppp");
    reveal_strlit("pp");
    reveal_strlit("p");
    reveal_strlit("mp");
    reveal_strlit("mf");
    reveal_strlit("f");
    reveal_strlit("ff");
    assert("ppp"@.len() == 3 && "pp"@.len() == 2 && "p"@.len() == 1 && "mp"@.len() == 2 && "mf"@.len() == 2
        && "f"@.len() == 1 && "ff"@.len() == 2);
    assert("pp"@[0] == 'p' && "mp"@[0] == 'm' && "mf"@[0] == 'm' && "ff"@[0] == 'f');
    assert("pp"@[1] == 'p' && "mp"@[1] == 'p' && "mf"@[1] == 'f' && "ff"@[1] == 'f');
    assert("p"@[0] == 'p' && "f"@[0] == 'f');
}

/// A vowel may be written by its one letter, too, and a hum as a word; nothing else is a vowel.
pub proof fn what_names_a_vowel(word: Seq<char>)
    ensures
        Vowel::named("a"@) == Some(Vowel::Ah),
        Vowel::named("e"@) == Some(Vowel::Eh),
        Vowel::named("i"@) == Some(Vowel::Ee),
        Vowel::named("o"@) == Some(Vowel::Oh),
        Vowel::named("u"@) == Some(Vowel::Oo),
        Vowel::named("m"@) == Some(Vowel::Mm),
        Vowel::named("hum"@) == Some(Vowel::Mm),
        Vowel::named("ah"@) == Some(Vowel::Ah),
        Vowel::named("eh"@) == Some(Vowel::Eh),
        Vowel::named("ee"@) == Some(Vowel::Ee),
        Vowel::named("oh"@) == Some(Vowel::Oh),
        Vowel::named("oo"@) == Some(Vowel::Oo),
        Vowel::named("mm"@) == Some(Vowel::Mm),
        Vowel::named(word) is Some ==> 1 <= word.len() <= 3,
{
    reveal_strlit("ah");
    reveal_strlit("a");
    reveal_strlit("eh");
    reveal_strlit("e");
    reveal_strlit("ee");
    reveal_strlit("i");
    reveal_strlit("oh");
    reveal_strlit("o");
    reveal_strlit("oo");
    reveal_strlit("u");
    reveal_strlit("mm");
    reveal_strlit("m");
    reveal_strlit("hum");
    assert("ah"@.len() == 2 && "eh"@.len() == 2 && "ee"@.len() == 2 && "oh"@.len() == 2 && "oo"@.len() == 2
        && "mm"@.len() == 2 && "hum"@.len() == 3);
    assert("a"@.len() == 1 && "e"@.len() == 1 && "i"@.len() == 1 && "o"@.len() == 1 && "u"@.len() == 1
        && "m"@.len() == 1);
    assert("ah"@[0] == 'a' && "eh"@[0] == 'e' && "ee"@[0] == 'e' && "oh"@[0] == 'o' && "oo"@[0] == 'o'
        && "mm"@[0] == 'm');
    assert("ah"@[1] == 'h' && "eh"@[1] == 'h' && "ee"@[1] == 'e' && "oh"@[1] == 'h' && "oo"@[1] == 'o'
        && "mm"@[1] == 'm');
    assert("a"@[0] == 'a' && "e"@[0] == 'e' && "i"@[0] == 'i' && "o"@[0] == 'o' && "u"@[0] == 'u' && "m"@[0]
        == 'm');
}

} // verus!
