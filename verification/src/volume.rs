//! What the speaker's volume control is asked, and what its answers mean.
//!
//! The control belongs to one mixer element of one sound card. Running the mixer is the
//! caller's business; which arguments it gets, and what its output says, is decided here.

use crate::scan::{
    after_last, chars_of, contains_text, decimal, digit, find_after_last, find_text, find_text_from,
    lines, lines_from, natural, parse_natural, push_decimal, push_text, stands_at, strings, texts,
};
use vstd::prelude::*;
use vstd::slice::slice_subrange;

verus! {

/// Why a volume request was turned down.
#[derive(Debug, Clone, Copy, PartialEq, Eq, Structural)]
pub enum Code {
    InvalidParams,
    Internal,
}

/// A refusal, with the words the client sees.
pub struct Failure {
    pub code: Code,
    pub message: String,
}

/// The speaker's mixer, where this audio device has one that keeps what is written to it.
pub struct Volume {
    pub card: Option<String>,
}

/// What one line of mixer output says about the playback volume.
///
/// The level is written `[96%]`: the text before the line's first `%]` and after the last `[`
/// in front of it.
pub open spec fn line_percent(line: Seq<char>) -> Option<nat> {
    let end = find_text_from(line, "%]"@, 0);
    let from = after_last(line, '[', end);
    if !contains_text(line, "Playback"@) || end >= line.len() || from == 0 {
        None
    } else {
        match natural(line.subrange(from, end)) {
            Some(p) if p <= 100 => Some(p),
            _ => None,
        }
    }
}

fn read_line(line: &[char]) -> (p: Option<u8>)
    ensures
        p is Some <==> line_percent(line@) is Some,
        p is Some ==> p->0 == line_percent(line@)->0 && p->0 <= 100,
{
    if find_text(line, "Playback", 0) >= line.len() {
        return None;
    }
    let end = find_text(line, "%]", 0);
    if end >= line.len() {
        return None;
    }
    let from = find_after_last(line, '[', end);
    if from == 0 {
        return None;
    }
    match parse_natural(slice_subrange(line, from, end), 100) {
        Some(p) => Some(p as u8),
        None => None,
    }
}

/// The loudest playback channel in the mixer's output, as a percentage.
///
/// Capture lines and malformed lines say nothing, and so does a level past a hundred.
pub fn parse_percent(text: &str) -> (loudest: Option<u8>)
    ensures
        match loudest {
            None => forall|i: int|
                0 <= i < lines_from(text@, 0).len() ==> line_percent(
                    #[trigger] lines_from(text@, 0)[i],
                ) is None,
            Some(p) => {
                &&& p <= 100
                &&& exists|i: int|
                    0 <= i < lines_from(text@, 0).len() && line_percent(
                        #[trigger] lines_from(text@, 0)[i],
                    ) == Some(p as nat)
                &&& forall|i: int|
                    0 <= i < lines_from(text@, 0).len() && line_percent(
                        #[trigger] lines_from(text@, 0)[i],
                    ) is Some ==> line_percent(lines_from(text@, 0)[i])->0 <= p
            },
        },
{
    let chars = chars_of(text);
    let all = lines(chars.as_slice());
    let ghost said = lines_from(text@, 0);
    let mut loudest: Option<u8> = None;
    let mut at: usize = 0;
    while at < all.len()
        invariant
            at <= all@.len(),
            texts(all@) == said,
            match loudest {
                None => forall|i: int| 0 <= i < at ==> line_percent(#[trigger] said[i]) is None,
                Some(p) => {
                    &&& p <= 100
                    &&& exists|i: int| 0 <= i < at && line_percent(#[trigger] said[i]) == Some(p as nat)
                    &&& forall|i: int|
                        0 <= i < at && line_percent(#[trigger] said[i]) is Some ==> line_percent(
                            said[i],
                        )->0 <= p
                },
            },
        decreases all@.len() - at,
    {
        let p = read_line(all[at].as_slice());
        proof {
            assert(said[at as int] == all@[at as int]@);
        }
        match p {
            None => {},
            Some(p) => {
                let louder = match loudest {
                    None => true,
                    Some(high) => p > high,
                };
                if louder {
                    loudest = Some(p);
                    assert(line_percent(said[at as int]) == Some(p as nat));
                }
            },
        }
        at = at + 1;
    }
    loudest
}

/// The arguments that make the mixer set the volume, or report it.
pub open spec fn mixer_words(card: Seq<char>, percent: Option<u8>) -> Seq<Seq<char>> {
    let front = seq!["-M"@, "-c"@, card];
    match percent {
        Some(p) => front + seq!["sset"@, "Xduck"@, decimal(p as nat) + "%"@],
        None => front + seq!["sget"@, "Xduck"@],
    }
}

/// The mixer's command line for one question.
pub fn mixer_args(card: &str, percent: Option<u8>) -> (args: Vec<String>)
    ensures
        strings(args@) == mixer_words(card@, percent),
{
    let mut args: Vec<String> = Vec::new();
    args.push("-M".to_owned());
    args.push("-c".to_owned());
    args.push(card.to_owned());
    match percent {
        Some(p) => {
            args.push("sset".to_owned());
            args.push("Xduck".to_owned());
            let mut level = String::new();
            push_decimal(&mut level, p as u64);
            push_text(&mut level, "%");
            proof {
                assert(level@ =~= decimal(p as nat) + "%"@);
            }
            args.push(level);
        },
        None => {
            args.push("sget".to_owned());
            args.push("Xduck".to_owned());
        },
    }
    proof {
        assert(strings(args@) =~= mixer_words(card@, percent));
    }
    args
}

fn failure(message: &str) -> (f: Failure)
    ensures
        f.code == Code::Internal,
        f.message@ == message@,
{
    Failure { code: Code::Internal, message: message.to_owned() }
}

impl Volume {
    /// The control exists only on the deployed speaker device: it is the one whose user control
    /// keeps what is written to it and can be read back.
    pub fn new(enabled: bool, device: &str) -> (v: Self)
        ensures
            v.card is Some <==> enabled && device@ == "xduck_speaker"@,
            v.card is Some ==> v.card->0@ == "rockchiprk809"@,
    {
        let chars = chars_of(device);
        if enabled && crate::scan::spells(chars.as_slice(), "xduck_speaker") {
            Volume { card: Some("rockchiprk809".to_owned()) }
        } else {
            Volume { card: None }
        }
    }

    /// What to ask the mixer, in order: the new level first where one is given, and then always
    /// a fresh reading, because a setter only echoes what it was told.
    ///
    /// A level past a hundred is refused before anything else, and a device without the control
    /// is refused without touching hardware.
    pub fn request(&self, percent: Option<u8>) -> (plan: Result<Vec<Vec<String>>, Failure>)
        ensures
            match plan {
                Err(f) => {
                    ||| percent is Some && percent->0 > 100 && f.code == Code::InvalidParams && f.message@
                        == "volume must be 0–100"@
                    ||| !(percent is Some && percent->0 > 100) && self.card is None && f.code
                        == Code::Internal && f.message@ == "speaker volume is unavailable on this audio device"@
                },
                Ok(calls) => {
                    &&& !(percent is Some && percent->0 > 100)
                    &&& self.card is Some
                    &&& match percent {
                        Some(p) => calls@.len() == 2 && strings(calls@[0]@) == mixer_words(
                            self.card->0@,
                            Some(p),
                        ) && strings(calls@[1]@) == mixer_words(self.card->0@, None),
                        None => calls@.len() == 1 && strings(calls@[0]@) == mixer_words(
                            self.card->0@,
                            None,
                        ),
                    }
                },
            },
    {
        match percent {
            Some(p) => {
                if p > 100 {
                    return Err(
                        Failure { code: Code::InvalidParams, message: "volume must be 0–100".to_owned() },
                    );
                }
            },
            None => {},
        }
        match &self.card {
            None => Err(failure("speaker volume is unavailable on this audio device")),
            Some(card) => {
                let mut calls: Vec<Vec<String>> = Vec::new();
                match percent {
                    Some(p) => {
                        calls.push(mixer_args(card.as_str(), Some(p)));
                    },
                    None => {},
                }
                calls.push(mixer_args(card.as_str(), None));
                Ok(calls)
            },
        }
    }
}

/// What the mixer's reading means to the client that asked.
pub fn reported(output: &str) -> (percent: Result<u8, Failure>)
    ensures
        match percent {
            Ok(p) => {
                &&& p <= 100
                &&& exists|i: int|
                    0 <= i < lines_from(output@, 0).len() && line_percent(
                        #[trigger] lines_from(output@, 0)[i],
                    ) == Some(p as nat)
                &&& forall|i: int|
                    0 <= i < lines_from(output@, 0).len() && line_percent(
                        #[trigger] lines_from(output@, 0)[i],
                    ) is Some ==> line_percent(lines_from(output@, 0)[i])->0 <= p
            },
            Err(f) => {
                &&& f.code == Code::Internal
                &&& f.message@ == "audio mixer returned no playback volume"@
                &&& forall|i: int|
                    0 <= i < lines_from(output@, 0).len() ==> line_percent(
                        #[trigger] lines_from(output@, 0)[i],
                    ) is None
            },
        },
{
    match parse_percent(output) {
        Some(p) => Ok(p),
        None => Err(failure("audio mixer returned no playback volume")),
    }
}

/// A line that says a level is a playback line with a whole number of at most a hundred between a
/// bracket and the first `%]`.
pub proof fn what_a_level_looks_like(line: Seq<char>)
    ensures
        ({
            let end = find_text_from(line, "%]"@, 0);
            line_percent(line) matches Some(p) ==> {
                &&& p <= 100
                &&& contains_text(line, "Playback"@)
                &&& stands_at(line, "%]"@, end)
                &&& exists|from: int|
                    #![trigger line.subrange(from, end)]
                    {
                        &&& 0 < from <= end
                        &&& line[from - 1] == '['
                        &&& forall|i: int| from <= i < end ==> line[i] != '['
                        &&& natural(line.subrange(from, end)) == Some(p)
                    }
            }
        }),
        !contains_text(line, "Playback"@) ==> line_percent(line) is None,
{
    let end = find_text_from(line, "%]"@, 0);
    crate::scan::where_a_word_stands(line, "%]"@, 0);
    if line_percent(line) is Some {
        lemma_find_text_bound(line, "%]"@, 0);
        crate::scan::a_search_finds_the_last(line, '[', end);
        let from = after_last(line, '[', end);
        assert(natural(line.subrange(from, end)) == line_percent(line));
    }
}

proof fn lemma_find_text_bound(s: Seq<char>, word: Seq<char>, from: int)
    requires
        0 <= from <= s.len(),
    ensures
        from <= find_text_from(s, word, from) <= s.len(),
    decreases s.len() - from,
{
    if from < s.len() && !stands_at(s, word, from) {
        lemma_find_text_bound(s, word, from + 1);
    }
}

/// A playback line with one level in it says that level.
pub proof fn a_level_is_read(before: Seq<char>, after: Seq<char>, percent: nat)
    requires
        percent <= 100,
        contains_text(before + seq!['['] + decimal(percent) + "%]"@ + after, "Playback"@),
        forall|i: int| 0 <= i < before.len() ==> #[trigger] before[i] != '%',
    ensures
        line_percent(before + seq!['['] + decimal(percent) + "%]"@ + after) == Some(percent),
{
    reveal_strlit("%]");
    let d = decimal(percent);
    let line = before + seq!['['] + d + "%]"@ + after;
    let from = (before.len() + 1) as int;
    let end = from + d.len();
    crate::scan::lemma_decimal(percent);
    crate::scan::an_integer_reads_back(percent);
    crate::scan::where_a_word_stands(line, "%]"@, 0);
    lemma_find_text_bound(line, "%]"@, 0);
    assert(line.subrange(end, end + 2) =~= "%]"@);
    assert(stands_at(line, "%]"@, end));
    let at = find_text_from(line, "%]"@, 0);
    assert(at <= end);
    assert(line.subrange(at, at + 2)[0] == line[at]);
    assert(line[at] == '%');
    assert(at == end) by {
        if at < before.len() {
            assert(line[at] == before[at]);
        } else if at == before.len() {
            assert(line[at] == '[');
        } else if at < end {
            assert(line[at] == d[at - from]);
            assert(digit(d[at - from]));
        }
    }
    crate::scan::a_search_finds_the_last(line, '[', end);
    let found = after_last(line, '[', end);
    assert(line[from - 1] == '[');
    assert(found >= from) by {
        if found < from {
            assert(line[from - 1] != '[');
        }
    }
    assert(found == from) by {
        if found > from {
            assert(line[found - 1] == d[found - 1 - from]);
            assert(digit(d[found - 1 - from]));
        }
    }
    assert(line.subrange(from, end) =~= d);
}

/// The mixer is asked for one control on one card, with the scale that the ear hears: to set it to so
/// many percent, or to say where it stands.
pub proof fn what_the_mixer_is_asked(card: Seq<char>, percent: u8)
    ensures
        mixer_words(card, Some(percent)) == seq![
            "-M"@,
            "-c"@,
            card,
            "sset"@,
            "Xduck"@,
            decimal(percent as nat) + "%"@,
        ],
        mixer_words(card, None) == seq!["-M"@, "-c"@, card, "sget"@, "Xduck"@],
{
    assert(mixer_words(card, Some(percent)) =~= seq![
        "-M"@,
        "-c"@,
        card,
        "sset"@,
        "Xduck"@,
        decimal(percent as nat) + "%"@,
    ]);
    assert(mixer_words(card, None) =~= seq!["-M"@, "-c"@, card, "sget"@, "Xduck"@]);
}

} // verus!
