//! What the voice program makes of its command line.

use crate::chorale::Part;
use crate::path::{extension, extension_of, file_name, file_name_of};
use crate::scan::{ascii_lowered, copy_range, lowered, spells, text_of};
use vstd::prelude::*;

verus! {

/// How a score is written.
#[derive(Debug, Clone, Copy, PartialEq, Eq, Structural)]
pub enum Kind {
    Midi,
    Text,
}

/// How a file's ending says that a score is written: `mid` and `midi`, in any case, are MIDI, and
/// anything else is text.
pub open spec fn kind_of(path: Seq<char>) -> Kind {
    match extension(path) {
        Some(e) => if ascii_lowered(e) == "mid"@ || ascii_lowered(e) == "midi"@ {
            Kind::Midi
        } else {
            Kind::Text
        },
        None => Kind::Text,
    }
}

pub fn score_kind(path: &str) -> (kind: Kind)
    ensures
        kind == kind_of(path@),
{
    match extension_of(path) {
        Some(e) => {
            let e = lowered(&e);
            if spells(&e, "mid") || spells(&e, "midi") {
                Kind::Midi
            } else {
                Kind::Text
            }
        },
        None => Kind::Text,
    }
}

/// A file's name without its ending.
pub open spec fn stem(path: Seq<char>) -> Option<Seq<char>> {
    match file_name(path) {
        None => None,
        Some(name) => match extension(path) {
            Some(e) => Some(name.take(name.len() - e.len() - 1)),
            None => Some(name),
        },
    }
}

/// What a score that has no name of its own is called: after its file.
pub fn score_name(path: &str) -> (name: String)
    ensures
        name@ == (match stem(path@) {
            Some(s) => s,
            None => "imported"@,
        }),
{
    match file_name_of(path) {
        None => "imported".to_owned(),
        Some(name) => match extension_of(path) {
            Some(e) => {
                proof {
                    crate::path::lemma_extension_fits(path@);
                }
                let rest = copy_range(&name, 0, name.len() - e.len() - 1);
                proof {
                    assert(rest@ =~= name@.take(name@.len() - e@.len() - 1));
                }
                text_of(&rest)
            },
            None => text_of(&name),
        },
    }
}

/// Seeds that cast to clearly different registers.
pub open spec fn spread() -> Seq<u32> {
    seq![100u32, 7, 313, 42, 9001, 1234, 55, 777]
}

/// The seeds of a chorus: those given, or as many of the spread as there are voices, one at least.
pub open spec fn chorus(given: Option<Seq<u32>>, voices: nat) -> Seq<u32> {
    match given {
        Some(seeds) => seeds,
        None => spread().take(
            if voices < 1 {
                1
            } else if voices > 8 {
                8
            } else {
                voices as int
            },
        ),
    }
}

pub fn choose_seeds(given: Option<Vec<u32>>, voices: usize) -> (seeds: Vec<u32>)
    ensures
        seeds@ == chorus(
            match given {
                Some(g) => Some(g@),
                None => None,
            },
            voices as nat,
        ),
{
    match given {
        Some(seeds) => seeds,
        None => {
            let mut seeds: Vec<u32> = vec![100, 7, 313, 42, 9001, 1234, 55, 777];
            let count: usize = if voices < 1 {
                1
            } else if voices > 8 {
                8
            } else {
                voices
            };
            proof {
                assert(seeds@ =~= spread());
            }
            seeds.truncate(count);
            proof {
                assert(seeds@ =~= spread().take(count as int));
            }
            seeds
        },
    }
}

/// The parts of a score that nobody sings, in the score's order.
pub open spec fn left_unsung(parts: Seq<Part>, sung: Seq<Part>) -> Seq<Part>
    decreases parts.len(),
{
    if parts.len() == 0 {
        Seq::empty()
    } else {
        let rest = left_unsung(parts.drop_last(), sung);
        if sung.contains(parts.last()) {
            rest
        } else {
            rest.push(parts.last())
        }
    }
}

fn sings(sung: &Vec<Part>, part: Part) -> (yes: bool)
    ensures
        yes == sung@.contains(part),
{
    let mut at: usize = 0;
    while at < sung.len()
        invariant
            at <= sung@.len(),
            forall|i: int| 0 <= i < at ==> sung@[i] != part,
        decreases sung@.len() - at,
    {
        if sung[at] == part {
            return true;
        }
        at = at + 1;
    }
    false
}

pub fn unsung(parts: &Vec<Part>, sung: &Vec<Part>) -> (missing: Vec<Part>)
    ensures
        missing@ == left_unsung(parts@, sung@),
{
    let mut missing: Vec<Part> = Vec::new();
    let mut at: usize = 0;
    proof {
        assert(parts@.take(0) =~= Seq::empty());
    }
    while at < parts.len()
        invariant
            at <= parts@.len(),
            missing@ == left_unsung(parts@.take(at as int), sung@),
        decreases parts@.len() - at,
    {
        proof {
            assert(parts@.take(at + 1).drop_last() =~= parts@.take(at as int));
        }
        if !sings(sung, parts[at]) {
            missing.push(parts[at]);
        }
        at = at + 1;
    }
    proof {
        assert(parts@.take(at as int) =~= parts@);
    }
    missing
}

/// Only a file that ends in `mid` or `midi`, in any case, is read as MIDI.
pub proof fn what_is_read_as_midi(path: Seq<char>)
    ensures
        kind_of(path) == Kind::Midi <==> (extension(path) matches Some(e) && (ascii_lowered(e) == "mid"@
            || ascii_lowered(e) == "midi"@)),
{
}

/// A file's name is its stem and its ending, with the dot between them.
pub proof fn a_name_is_its_stem_and_ending(path: Seq<char>, before: Seq<char>, ending: Seq<char>)
    requires
        before.len() > 0,
        forall|i: int| 0 <= i < ending.len() ==> #[trigger] ending[i] != '.',
        file_name(path) == Some(before + seq!['.'] + ending),
    ensures
        stem(path) == Some(before),
{
    crate::path::what_follows_the_last_dot(path, before, ending);
    let name = before + seq!['.'] + ending;
    assert(name.take(name.len() - ending.len() - 1) =~= before);
}

/// A chorus is who is named, or as many as there are voices: at least one and at most eight, each with
/// a voice of its own, and a smaller one sings with the same voices as a larger.
pub proof fn who_is_in_a_chorus(seeds: Seq<u32>, voices: nat, more: nat)
    requires
        voices <= more,
    ensures
        chorus(Some(seeds), voices) == seeds,
        1 <= chorus(None, voices).len() <= 8,
        1 <= voices <= 8 ==> chorus(None, voices).len() == voices,
        chorus(None, voices).no_duplicates(),
        chorus(None, voices).is_prefix_of(chorus(None, more)),
{
}

/// A part of the score is left unsung exactly where nobody sings it.
pub proof fn what_nobody_sings_is_left(parts: Seq<Part>, sung: Seq<Part>, part: Part)
    ensures
        left_unsung(parts, sung).contains(part) <==> parts.contains(part) && !sung.contains(part),
    decreases parts.len(),
{
    if parts.len() > 0 {
        let rest = parts.drop_last();
        let left = left_unsung(rest, sung);
        what_nobody_sings_is_left(rest, sung, part);
        if rest.contains(part) {
            let i = choose|i: int| 0 <= i < rest.len() && rest[i] == part;
            assert(parts[i] == part);
        }
        if parts.contains(part) {
            let i = choose|i: int| 0 <= i < parts.len() && parts[i] == part;
            if i < rest.len() {
                assert(rest[i] == part);
            }
        }
        if parts.last() == part {
            assert(parts[parts.len() - 1] == part);
            if !sung.contains(part) {
                assert(left_unsung(parts, sung)[left.len() as int] == part);
            }
        }
        if left.contains(part) {
            let i = choose|i: int| 0 <= i < left.len() && left[i] == part;
            assert(left_unsung(parts, sung)[i] == part);
        }
        if left_unsung(parts, sung).contains(part) {
            let all = left_unsung(parts, sung);
            let i = choose|i: int| 0 <= i < all.len() && all[i] == part;
            if i < left.len() {
                assert(left[i] == part);
            }
        }
    }
}

} // verus!
