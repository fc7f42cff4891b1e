//! The voice bank: which sounds a duck has, how their files are named, and which duck it is.
//!
//! A single integer seed decides a duck's voice, and the seed is derived from the hardware. The
//! bank is rendered from it once; a marker beside the files records the seed and the bank
//! version, so that a bank that no longer matches is rendered again.

use crate::outside::{decode_lossy, lossy_text, sha256, sha256_digest};
use crate::scan::{
    chars_of, copy_range, decimal, digit, digits_end, find, find_from, is_at, natural, parse_natural,
    push_decimal, push_text, spells, stands_at, strings, text_of, texts, trim, trimmed, value_of,
};
use vstd::prelude::*;
use vstd::slice::slice_subrange;

verus! {

/// Bumped when the synth changes enough that existing banks should be rendered again.
pub const BANK_VERSION: u32 = 5;

/// How many tags there are.
pub const TAG_COUNT: usize = 7;

/// The tags, in the order they are rendered.
pub open spec fn tags() -> Seq<Seq<char>> {
    seq!["alarm"@, "greet"@, "inquire"@, "peck"@, "chirp"@, "coo"@, "wheee"@]
}

/// A tag by its place in the render order.
pub fn tag_at(i: usize) -> (tag: &'static str)
    requires
        i < TAG_COUNT,
    ensures
        tag@ == tags()[i as int],
{
    if i == 0 {
        "alarm"
    } else if i == 1 {
        "greet"
    } else if i == 2 {
        "inquire"
    } else if i == 3 {
        "peck"
    } else if i == 4 {
        "chirp"
    } else if i == 5 {
        "coo"
    } else {
        "wheee"
    }
}

/// Where a tag stands in the render order; nothing for a tag no recipe knows.
pub fn find_tag(tag: &str) -> (at: Option<usize>)
    ensures
        match at {
            Some(i) => i < TAG_COUNT && tags()[i as int] == tag@ && forall|k: int|
                0 <= k < i ==> tags()[k] != tag@,
            None => !tags().contains(tag@),
        },
{
    let chars = chars_of(tag);
    let mut i: usize = 0;
    while i < TAG_COUNT
        invariant
            i <= TAG_COUNT,
            chars@ == tag@,
            forall|k: int| 0 <= k < i ==> tags()[k] != tag@,
        decreases TAG_COUNT - i,
    {
        if spells(chars.as_slice(), tag_at(i)) {
            return Some(i);
        }
        i = i + 1;
    }
    None
}

/// How many variants a tag has. More variants directly means a more organic-feeling duck, so the
/// most-heard tags get the most.
pub open spec fn variants(tag: Seq<char>) -> u32 {
    if tag == "greet"@ || tag == "chirp"@ {
        12
    } else if tag == "wheee"@ {
        6
    } else {
        10
    }
}

pub fn variant_count(tag: &str) -> (n: u32)
    ensures
        n == variants(tag@),
{
    let chars = chars_of(tag);
    let t = chars.as_slice();
    if spells(t, "greet") || spells(t, "chirp") {
        12
    } else if spells(t, "wheee") {
        6
    } else {
        10
    }
}

/// A piece of a ride, which is streamed for as long as it lasts.
#[derive(Debug, Clone, Copy, PartialEq, Eq, Structural)]
pub enum Segment {
    Start,
    Loop,
    End,
}

/// One file of the bank.
#[derive(Debug, Clone, Copy, PartialEq, Eq, Structural)]
pub struct BankFile {
    /// The tag's place in the render order.
    pub tag: usize,
    pub variant: u32,
    /// Only the ride has segments.
    pub segment: Option<Segment>,
}

/// A segment's name.
pub open spec fn segment_name(segment: Segment) -> Seq<char> {
    match segment {
        Segment::Start => "start"@,
        Segment::Loop => "loop"@,
        Segment::End => "end"@,
    }
}

/// The letter a variant goes by.
pub open spec fn letter(variant: u32) -> char {
    (97 + variant) as u8 as char
}

/// The path of a file below the bank's directory: `<tag>/<tag>_<letter>.wav`, with the segment
/// between tag and letter for a ride.
pub open spec fn bank_path(file: BankFile) -> Seq<char> {
    let tag = tags()[file.tag as int];
    tag + "/"@ + tag + "_"@ + (match file.segment {
        Some(segment) => segment_name(segment) + "_"@,
        None => ""@,
    }) + seq![letter(file.variant)] + ".wav"@
}

/// Whether a file is one that the bank holds.
pub open spec fn in_bank(file: BankFile) -> bool {
    &&& file.tag < TAG_COUNT
    &&& file.variant < variants(tags()[file.tag as int])
    &&& file.segment is Some <==> file.tag == 6
}

/// Writes out the path of a file of the bank.
pub fn path_of(file: BankFile) -> (path: String)
    requires
        in_bank(file),
    ensures
        path@ == bank_path(file),
{
    let tag = tag_at(file.tag);
    let mut path = tag.to_owned();
    push_text(&mut path, "/");
    push_text(&mut path, tag);
    push_text(&mut path, "_");
    match file.segment {
        Some(segment) => {
            let name = match segment {
                Segment::Start => "start",
                Segment::Loop => "loop",
                Segment::End => "end",
            };
            push_text(&mut path, name);
            push_text(&mut path, "_");
        },
        None => {},
    }
    let c: char = (97 + file.variant as u8) as char;
    path.push(c);
    push_text(&mut path, ".wav");
    proof {
        reveal_strlit("");
        assert(path@ =~= bank_path(file));
    }
    path
}

/// The files of the first `n` variants of a tag.
pub open spec fn tag_files(tag: int, n: nat) -> Seq<BankFile>
    decreases n,
{
    if n == 0 {
        Seq::empty()
    } else {
        let before = tag_files(tag, (n - 1) as nat);
        let variant = (n - 1) as u32;
        if tag == 6 {
            before.push(
                BankFile { tag: tag as usize, variant, segment: Some(Segment::Start) },
            ).push(BankFile { tag: tag as usize, variant, segment: Some(Segment::Loop) }).push(
                BankFile { tag: tag as usize, variant, segment: Some(Segment::End) },
            )
        } else {
            before.push(BankFile { tag: tag as usize, variant, segment: None })
        }
    }
}

/// The files of the first `n` tags.
pub open spec fn files_of(n: nat) -> Seq<BankFile>
    decreases n,
{
    if n == 0 {
        Seq::empty()
    } else {
        files_of((n - 1) as nat) + tag_files(n - 1, variants(tags()[n - 1]) as nat)
    }
}

/// Every file of a bank, in render order.
pub fn bank_layout() -> (files: Vec<BankFile>)
    ensures
        files@ == files_of(7),
        forall|i: int| 0 <= i < files@.len() ==> in_bank(#[trigger] files@[i]),
{
    let mut files: Vec<BankFile> = Vec::new();
    let mut tag: usize = 0;
    while tag < TAG_COUNT
        invariant
            tag <= TAG_COUNT,
            files@ == files_of(tag as nat),
            forall|i: int| 0 <= i < files@.len() ==> in_bank(#[trigger] files@[i]),
        decreases TAG_COUNT - tag,
    {
        let n = variant_count(tag_at(tag));
        let ghost before = files@;
        let mut variant: u32 = 0;
        proof {
            assert(before + tag_files(tag as int, 0) =~= before);
        }
        while variant < n
            invariant
                tag < TAG_COUNT,
                n == variants(tags()[tag as int]),
                variant <= n,
                files@ == before + tag_files(tag as int, variant as nat),
                forall|i: int| 0 <= i < files@.len() ==> in_bank(#[trigger] files@[i]),
            decreases n - variant,
        {
            let ghost at = files@;
            if tag == 6 {
                files.push(BankFile { tag, variant, segment: Some(Segment::Start) });
                files.push(BankFile { tag, variant, segment: Some(Segment::Loop) });
                files.push(BankFile { tag, variant, segment: Some(Segment::End) });
            } else {
                files.push(BankFile { tag, variant, segment: None });
            }
            variant = variant + 1;
            proof {
                assert(files@ =~= before + tag_files(tag as int, variant as nat));
                assert forall|i: int| 0 <= i < files@.len() implies in_bank(#[trigger] files@[i]) by {
                    if i < at.len() {
                        assert(files@[i] == at[i]);
                    }
                }
            }
        }
        tag = tag + 1;
    }
    files
}

proof fn lemma_tag_files_len(tag: int, n: nat)
    ensures
        tag_files(tag, n).len() == (if tag == 6 {
            3 * n
        } else {
            n
        }),
    decreases n,
{
    if n > 0 {
        lemma_tag_files_len(tag, (n - 1) as nat);
    }
}

/// A bank has six one-shot tags in all their variants, and three segments for each ride.
pub proof fn a_bank_is_complete()
    ensures
        files_of(7).len() == 10 + 12 + 10 + 10 + 12 + 10 + 6 * 3,
{
    reveal_strlit("alarm");
    reveal_strlit("greet");
    reveal_strlit("inquire");
    reveal_strlit("peck");
    reveal_strlit("chirp");
    reveal_strlit("coo");
    reveal_strlit("wheee");
    reveal_with_fuel(files_of, 8);
    assert("alarm"@[0] != "greet"@[0] && "alarm"@[0] != "chirp"@[0] && "alarm"@[0] != "wheee"@[0]);
    assert("inquire"@.len() != "greet"@.len() && "peck"@.len() != "greet"@.len() && "coo"@.len()
        != "greet"@.len());
    assert("wheee"@[0] != "greet"@[0] && "wheee"@[0] != "chirp"@[0]);
    assert("chirp"@.len() == 5 && "wheee"@.len() == 5);
    lemma_tag_files_len(0, 10);
    lemma_tag_files_len(1, 12);
    lemma_tag_files_len(2, 10);
    lemma_tag_files_len(3, 10);
    lemma_tag_files_len(4, 12);
    lemma_tag_files_len(5, 10);
    lemma_tag_files_len(6, 6);
}

/// A seed from a digest: its first four bytes, most significant first.
pub open spec fn digest_seed(digest: Seq<u8>) -> u32 {
    (digest[0] * 0x100_0000 + digest[1] * 0x1_0000 + digest[2] * 0x100 + digest[3]) as u32
}

/// Reads a seed off a digest.
pub fn seed_from_digest(digest: &[u8; 32]) -> (seed: u32)
    ensures
        seed == digest_seed(digest@),
{
    digest[0] as u32 * 0x100_0000 + digest[1] as u32 * 0x1_0000 + digest[2] as u32 * 0x100
        + digest[3] as u32
}

/// The voice seed of a hardware id.
///
/// The digest decorrelates consecutive factory serials, so that two robots of one batch do not
/// get neighbouring seeds.
pub fn seed_from_id(id: &str) -> (seed: u32)
    ensures
        seed == digest_seed(sha256_digest(vstd::utf8::encode_utf8(id@))),
{
    let digest = sha256(id.as_bytes());
    seed_from_digest(&digest)
}

/// The first index at or after `from` that is not a NUL.
pub open spec fn skip_nul(s: Seq<char>, from: int) -> int
    decreases s.len() - from,
{
    if from < s.len() && s[from] == '\0' {
        skip_nul(s, from + 1)
    } else {
        from
    }
}

/// The end of `s[from..to]` without trailing NULs.
pub open spec fn nul_end(s: Seq<char>, from: int, to: int) -> int
    decreases to - from,
{
    if from < to && s[to - 1] == '\0' {
        nul_end(s, from, to - 1)
    } else {
        to
    }
}

/// A serial number as the device tree writes it: NUL-terminated, with white space around it.
pub open spec fn serial_text(s: Seq<char>) -> Seq<char> {
    let from = skip_nul(s, 0);
    trimmed(s.subrange(from, nul_end(s, from, s.len() as int)))
}

/// Strips the NULs and the white space around a serial number.
pub fn clean_serial(text: &str) -> (serial: String)
    ensures
        serial@ == serial_text(text@),
{
    let chars = chars_of(text);
    let mut from: usize = 0;
    while from < chars.len() && chars[from] == '\0'
        invariant
            from <= chars@.len(),
            skip_nul(chars@, 0) == skip_nul(chars@, from as int),
        decreases chars@.len() - from,
    {
        from = from + 1;
    }
    let mut to: usize = chars.len();
    while from < to && chars[to - 1] == '\0'
        invariant
            from <= to <= chars@.len(),
            nul_end(chars@, from as int, chars@.len() as int) == nul_end(
                chars@,
                from as int,
                to as int,
            ),
        decreases to,
    {
        to = to - 1;
    }
    text_of(trim(slice_subrange(chars.as_slice(), from, to)))
}

/// The id a robot's voice is derived from: the serial number burned into the chip where it can be
/// read, which survives reflashes, else the operating system's id.
pub open spec fn hardware_text(serial: Option<Seq<u8>>, machine: Option<Seq<char>>) -> Option<Seq<char>> {
    match serial {
        Some(raw) => Some(serial_text(lossy_text(raw))),
        None => match machine {
            Some(text) => Some(trimmed(text)),
            None => None,
        },
    }
}

/// The voice seed this hardware derives; nothing where neither id can be read.
pub fn hardware_seed(serial: Option<&[u8]>, machine: Option<&str>) -> (seed: Option<u32>)
    ensures
        match hardware_text(
            match serial {
                Some(raw) => Some(raw@),
                None => None,
            },
            match machine {
                Some(text) => Some(text@),
                None => None,
            },
        ) {
            Some(id) => seed == Some(digest_seed(sha256_digest(vstd::utf8::encode_utf8(id)))),
            None => seed is None,
        },
{
    match serial {
        Some(raw) => {
            let text = decode_lossy(raw);
            let id = clean_serial(text.as_str());
            Some(seed_from_id(id.as_str()))
        },
        None => match machine {
            Some(text) => {
                let chars = chars_of(text);
                let id = text_of(trim(chars.as_slice()));
                Some(seed_from_id(id.as_str()))
            },
            None => None,
        },
    }
}

/// The seed to voice: given, or derived from the hardware.
pub fn resolve_seed(given: Option<u32>, hardware: Option<u32>) -> (seed: Option<u32>)
    ensures
        seed == (if given is Some {
            given
        } else {
            hardware
        }),
{
    match given {
        Some(s) => Some(s),
        None => hardware,
    }
}

/// What the marker of a bank rendered from a seed says.
pub open spec fn marker_text(seed: u32) -> Seq<char> {
    decimal(seed as nat) + ":"@ + decimal(BANK_VERSION as nat)
}

/// Writes the marker of a bank.
pub fn marker(seed: u32) -> (text: String)
    ensures
        text@ == marker_text(seed),
{
    let mut text = String::new();
    push_decimal(&mut text, seed as u64);
    push_text(&mut text, ":");
    push_decimal(&mut text, BANK_VERSION as u64);
    proof {
        assert(text@ =~= marker_text(seed));
    }
    text
}

/// Whether a bank with this marker is current for a seed, so that nothing need be rendered.
pub fn is_current(found: &str, seed: u32) -> (yes: bool)
    ensures
        yes == (trimmed(found@) == marker_text(seed)),
{
    let chars = chars_of(found);
    let wanted = marker(seed);
    spells(trim(chars.as_slice()), wanted.as_str())
}

/// The seed that a marker records: the number before its first colon.
pub open spec fn recorded(found: Seq<char>) -> Option<nat> {
    let text = trimmed(found);
    match natural(text.subrange(0, find_from(text, ':', 0))) {
        Some(n) if n <= u32::MAX => Some(n),
        _ => None,
    }
}

/// Reads the seed off a marker.
///
/// The marker rather than the hardware id says which voice the files beside it were made in, so a
/// robot whose bank predates a re-seed still sings in the voice of its own quacks.
pub fn marker_seed(found: &str) -> (seed: Option<u32>)
    ensures
        seed is Some <==> recorded(found@) is Some,
        seed is Some ==> seed->0 == recorded(found@)->0,
{
    let chars = chars_of(found);
    let text = trim(chars.as_slice());
    let colon = find(text, ':', 0);
    match parse_natural(slice_subrange(text, 0, colon), 0xFFFF_FFFF) {
        Some(n) => Some(n as u32),
        None => None,
    }
}

proof fn lemma_decimal(n: nat)
    ensures
        decimal(n).len() > 0,
        forall|i: int| 0 <= i < decimal(n).len() ==> digit(#[trigger] decimal(n)[i]),
        value_of(decimal(n)) == n,
{
    crate::scan::lemma_decimal(n);
}

proof fn lemma_digits_end(s: Seq<char>, from: int)
    requires
        0 <= from <= s.len(),
        forall|i: int| 0 <= i < s.len() ==> digit(#[trigger] s[i]),
    ensures
        digits_end(s, from) == s.len(),
{
    crate::scan::lemma_digits_end(s, from);
}

/// Every number reads back from its own digits.
pub proof fn a_number_reads_back(n: nat)
    ensures
        natural(decimal(n)) == Some(n),
{
    let d = decimal(n);
    lemma_decimal(n);
    lemma_digits_end(d, 0);
    assert(digit(d[0]));
    assert(d[0] != '+');
    assert(d.subrange(0, d.len() as int) =~= d);
}

proof fn lemma_find_colon(d: Seq<char>, rest: Seq<char>, from: int)
    requires
        0 <= from <= d.len(),
        forall|i: int| 0 <= i < d.len() ==> digit(#[trigger] d[i]),
        rest.len() > 0,
        rest[0] == ':',
    ensures
        find_from(d + rest, ':', from) == d.len(),
    decreases d.len() - from,
{
    if from < d.len() {
        assert(digit(d[from]));
        assert((d + rest)[from] == d[from]);
        lemma_find_colon(d, rest, from + 1);
    } else {
        assert((d + rest)[from] == rest[0]);
    }
}

/// A marker gives back the seed it was written for, and is current for that seed and no other.
pub proof fn a_marker_keeps_its_seed(seed: u32, other: u32)
    ensures
        trimmed(marker_text(seed)) == marker_text(seed),
        recorded(marker_text(seed)) == Some(seed as nat),
        marker_text(seed) == marker_text(other) ==> seed == other,
{
    lemma_marker(seed);
    lemma_marker(other);
}

proof fn lemma_marker(seed: u32)
    ensures
        trimmed(marker_text(seed)) == marker_text(seed),
        recorded(marker_text(seed)) == Some(seed as nat),
{
    reveal_strlit(":");
    let d = decimal(seed as nat);
    let v = decimal(BANK_VERSION as nat);
    let m = marker_text(seed);
    lemma_decimal(seed as nat);
    lemma_decimal(BANK_VERSION as nat);
    assert(digit(d[0]));
    assert(m[0] == d[0]);
    assert(digit(v[v.len() - 1]));
    assert(m[m.len() - 1] == v[v.len() - 1]);
    assert(m.subrange(0, m.len() as int) =~= m);
    assert(m =~= d + (":"@ + v));
    lemma_find_colon(d, ":"@ + v, 0);
    assert(m.subrange(0, d.len() as int) =~= d);
    a_number_reads_back(seed as nat);
}

/// Whether one text comes before another: character by character, a prefix first.
pub open spec fn text_before(a: Seq<char>, b: Seq<char>, at: int) -> bool
    decreases a.len() - at,
{
    if at >= b.len() {
        false
    } else if at >= a.len() {
        true
    } else if a[at] != b[at] {
        a[at] < b[at]
    } else {
        text_before(a, b, at + 1)
    }
}

pub fn sorts_before(a: &[char], b: &[char]) -> (yes: bool)
    ensures
        yes == text_before(a@, b@, 0),
{
    let mut at: usize = 0;
    while at < a.len()
        invariant
            at <= a@.len(),
            text_before(a@, b@, 0) == text_before(a@, b@, at as int),
        decreases a@.len() - at,
    {
        if at >= b.len() {
            return false;
        }
        if a[at] != b[at] {
            return a[at] < b[at];
        }
        at = at + 1;
    }
    at < b.len()
}

/// Whether a file name has the extension `wav`.
pub open spec fn is_wav(name: Seq<char>) -> bool {
    name.len() > 4 && stands_at(name, ".wav"@, name.len() - 4)
}

fn has_wav(name: &[char]) -> (yes: bool)
    ensures
        yes == is_wav(name@),
{
    let suffix = chars_of(".wav");
    name.len() > 4 && is_at(name, suffix.as_slice(), name.len() - 4)
}

/// Where a name belongs among sorted names: behind every name it does not sort before.
pub open spec fn name_place(sorted: Seq<Seq<char>>, name: Seq<char>) -> int
    decreases sorted.len(),
{
    if sorted.len() == 0 || !text_before(name, sorted.last(), 0) {
        sorted.len() as int
    } else {
        name_place(sorted.drop_last(), name)
    }
}

/// The names, sorted.
pub open spec fn sorted_names(names: Seq<Seq<char>>) -> Seq<Seq<char>>
    decreases names.len(),
{
    if names.len() == 0 {
        Seq::empty()
    } else {
        let before = sorted_names(names.drop_last());
        before.insert(name_place(before, names.last()), names.last())
    }
}

proof fn lemma_text_order(a: Seq<char>, b: Seq<char>, c: Seq<char>, at: int)
    requires
        0 <= at,
    ensures
        !(text_before(a, b, at) && text_before(b, a, at)),
        !text_before(b, a, at) && !text_before(c, b, at) ==> !text_before(c, a, at),
    decreases a.len() + b.len() + c.len() - at,
{
    if at < a.len() && at < b.len() && a[at] == b[at] {
        lemma_text_order(a, b, c, at + 1);
    } else if at < b.len() && at < c.len() && b[at] == c[at] {
        lemma_text_order(a, b, c, at + 1);
    } else if at < a.len() && at < c.len() && a[at] == c[at] {
        lemma_text_order(a, b, c, at + 1);
    }
}

/// Sorting names puts every one of them behind those that sort before it, and loses none.
pub proof fn names_come_out_sorted(names: Seq<Seq<char>>)
    ensures
        sorted_names(names).len() == names.len(),
        sorted_names(names).to_multiset() == names.to_multiset(),
        forall|i: int, j: int|
            0 <= i <= j < names.len() ==> !text_before(
                #[trigger] sorted_names(names)[j],
                #[trigger] sorted_names(names)[i],
                0,
            ),
    decreases names.len(),
{
    broadcast use vstd::seq_lib::group_to_multiset_ensures;

    if names.len() > 0 {
        let rest = names.drop_last();
        let name = names.last();
        names_come_out_sorted(rest);
        let before = sorted_names(rest);
        let at = name_place(before, name);
        lemma_name_place(before, name);
        let now = sorted_names(names);
        assert(now == before.insert(at, name));
        assert(names =~= rest.push(name));
        assert forall|i: int, j: int| 0 <= i <= j < now.len() implies !text_before(
            #[trigger] now[j],
            #[trigger] now[i],
            0,
        ) by {
            if j < at {
                assert(now[i] == before[i] && now[j] == before[j]);
            } else if i > at {
                assert(now[i] == before[i - 1] && now[j] == before[j - 1]);
            } else if i == at && j == at {
                lemma_text_order(name, name, name, 0);
            } else if j == at {
                assert(now[i] == before[i]);
                assert(!text_before(before[at - 1], before[i], 0));
                lemma_text_order(before[i], before[at - 1], name, 0);
            } else if i == at {
                assert(now[j] == before[j - 1]);
                lemma_text_order(name, before[j - 1], name, 0);
            } else {
                assert(now[i] == before[i] && now[j] == before[j - 1]);
            }
        }
    }
}

proof fn lemma_name_place(sorted: Seq<Seq<char>>, name: Seq<char>)
    ensures
        0 <= name_place(sorted, name) <= sorted.len(),
        forall|i: int| name_place(sorted, name) <= i < sorted.len() ==> text_before(name, sorted[i], 0),
        name_place(sorted, name) > 0 ==> !text_before(name, sorted[name_place(sorted, name) - 1], 0),
    decreases sorted.len(),
{
    if sorted.len() > 0 && text_before(name, sorted.last(), 0) {
        lemma_name_place(sorted.drop_last(), name);
        assert forall|i: int| name_place(sorted, name) <= i < sorted.len() implies text_before(
            name,
            sorted[i],
            0,
        ) by {
            if i < sorted.len() - 1 {
                assert(sorted.drop_last()[i] == sorted[i]);
            }
        }
    }
}

fn sort_names(names: &Vec<Vec<char>>) -> (sorted: Vec<Vec<char>>)
    ensures
        texts(sorted@) == sorted_names(texts(names@)),
        sorted@.len() == names@.len(),
{
    let mut sorted: Vec<Vec<char>> = Vec::new();
    let mut k: usize = 0;
    proof {
        assert(texts(sorted@) =~= Seq::<Seq<char>>::empty());
    }
    while k < names.len()
        invariant
            k <= names@.len(),
            sorted@.len() == k,
            texts(sorted@) == sorted_names(texts(names@).take(k as int)),
        decreases names@.len() - k,
    {
        let ghost before = texts(sorted@);
        let name = copy_range(names[k].as_slice(), 0, names[k].len());
        proof {
            assert(name@ =~= names@[k as int]@);
            assert(before.take(before.len() as int) =~= before);
        }
        let mut to: usize = sorted.len();
        while to > 0 && sorts_before(name.as_slice(), sorted[to - 1].as_slice())
            invariant
                to <= sorted@.len(),
                before == texts(sorted@),
                name_place(before, name@) == name_place(before.take(to as int), name@),
            decreases to,
        {
            proof {
                assert(before.take(to as int).last() == before[to - 1]);
                assert(before.take(to as int).drop_last() =~= before.take(to - 1));
            }
            to = to - 1;
        }
        proof {
            if to > 0 {
                assert(before.take(to as int).last() == before[to - 1]);
            }
            assert(texts(names@).take(k + 1).drop_last() =~= texts(names@).take(k as int));
            assert(texts(names@).take(k + 1).last() == name@);
        }
        let ghost text = name@;
        sorted.insert(to, name);
        proof {
            assert(texts(sorted@) =~= before.insert(to as int, text));
        }
        k = k + 1;
    }
    proof {
        assert(texts(names@).take(k as int) =~= texts(names@));
    }
    sorted
}

/// The names of wav files among a directory's entries.
pub open spec fn wavs(names: Seq<Seq<char>>) -> Seq<Seq<char>>
    decreases names.len(),
{
    if names.len() == 0 {
        Seq::empty()
    } else if is_wav(names.last()) {
        wavs(names.drop_last()).push(names.last())
    } else {
        wavs(names.drop_last())
    }
}

/// The pick among sorted names: `roll` decides, wrapped round.
pub open spec fn picked(names: Seq<Seq<char>>, roll: int) -> Option<Seq<char>> {
    if names.len() == 0 {
        None
    } else {
        Some(sorted_names(names)[roll % (names.len() as int)])
    }
}

/// A wav from a directory's entries, chosen by `roll`; nothing where there is none.
pub fn pick(entries: &[String], roll: usize) -> (name: Option<String>)
    ensures
        match picked(wavs(strings(entries@)), roll as int) {
            Some(text) => name is Some && name->0@ == text,
            None => name is None,
        },
{
    let mut found: Vec<Vec<char>> = Vec::new();
    let mut k: usize = 0;
    proof {
        assert(texts(found@) =~= wavs(strings(entries@).take(0)));
    }
    while k < entries.len()
        invariant
            k <= entries@.len(),
            texts(found@) == wavs(strings(entries@).take(k as int)),
        decreases entries@.len() - k,
    {
        let chars = chars_of(entries[k].as_str());
        let ghost before = found@;
        let ghost text = chars@;
        proof {
            assert(strings(entries@).take(k + 1).drop_last() =~= strings(entries@).take(k as int));
            assert(strings(entries@).take(k + 1).last() == text);
        }
        if has_wav(chars.as_slice()) {
            found.push(chars);
            proof {
                assert(texts(found@) =~= texts(before).push(text));
            }
        }
        k = k + 1;
    }
    proof {
        assert(strings(entries@).take(k as int) =~= strings(entries@));
    }
    pick_sorted(&found, roll)
}

fn pick_sorted(found: &Vec<Vec<char>>, roll: usize) -> (name: Option<String>)
    ensures
        match picked(texts(found@), roll as int) {
            Some(text) => name is Some && name->0@ == text,
            None => name is None,
        },
{
    if found.len() == 0 {
        return None;
    }
    let sorted = sort_names(found);
    let at: usize = roll % found.len();
    proof {
        assert(texts(sorted@)[at as int] == sorted@[at as int]@);
    }
    Some(text_of(sorted[at].as_slice()))
}

/// The letter of a ride's start file: what stands between its prefix and its extension.
pub open spec fn ride_letter(name: Seq<char>) -> Option<Seq<char>> {
    let front = "wheee_start_"@.len() as int;
    if stands_at(name, "wheee_start_"@, 0) && front + 4 <= name.len() && stands_at(
        name,
        ".wav"@,
        name.len() - 4,
    ) {
        Some(name.subrange(front, name.len() - 4))
    } else {
        None
    }
}

/// The letters of the rides a directory holds.
pub open spec fn ride_letters(names: Seq<Seq<char>>) -> Seq<Seq<char>>
    decreases names.len(),
{
    if names.len() == 0 {
        Seq::empty()
    } else {
        let before = ride_letters(names.drop_last());
        match ride_letter(names.last()) {
            Some(letter) => before.push(letter),
            None => before,
        }
    }
}

fn read_letter(name: &[char]) -> (letter: Option<Vec<char>>)
    ensures
        match ride_letter(name@) {
            Some(text) => letter is Some && letter->0@ == text,
            None => letter is None,
        },
{
    let front = chars_of("wheee_start_");
    let back = chars_of(".wav");
    proof {
        reveal_strlit("wheee_start_");
        reveal_strlit(".wav");
    }
    if !is_at(name, front.as_slice(), 0) {
        return None;
    }
    if name.len() < 16 {
        return None;
    }
    if !is_at(name, back.as_slice(), name.len() - 4) {
        return None;
    }
    Some(copy_range(name, 12, name.len() - 4))
}

/// A ride from a directory's entries, chosen by `roll`; nothing where no ride has a start.
pub fn pick_ride(entries: &[String], roll: usize) -> (letter: Option<String>)
    ensures
        match picked(ride_letters(strings(entries@)), roll as int) {
            Some(text) => letter is Some && letter->0@ == text,
            None => letter is None,
        },
{
    let mut found: Vec<Vec<char>> = Vec::new();
    let mut k: usize = 0;
    proof {
        assert(texts(found@) =~= ride_letters(strings(entries@).take(0)));
    }
    while k < entries.len()
        invariant
            k <= entries@.len(),
            texts(found@) == ride_letters(strings(entries@).take(k as int)),
        decreases entries@.len() - k,
    {
        let chars = chars_of(entries[k].as_str());
        proof {
            assert(strings(entries@).take(k + 1).drop_last() =~= strings(entries@).take(k as int));
            assert(strings(entries@).take(k + 1).last() == chars@);
        }
        match read_letter(chars.as_slice()) {
            Some(letter) => {
                let ghost before = found@;
                let ghost text = letter@;
                found.push(letter);
                proof {
                    assert(texts(found@) =~= texts(before).push(text));
                }
            },
            None => {},
        }
        k = k + 1;
    }
    proof {
        assert(strings(entries@).take(k as int) =~= strings(entries@));
    }
    pick_sorted(&found, roll)
}

/// The tags and how many variants each has: the most-heard ones have the most.
pub proof fn the_tags_of_a_bank()
    ensures
        tags().len() == 7,
        tags()[0] == "alarm"@ && variants(tags()[0]) == 10,
        tags()[1] == "greet"@ && variants(tags()[1]) == 12,
        tags()[2] == "inquire"@ && variants(tags()[2]) == 10,
        tags()[3] == "peck"@ && variants(tags()[3]) == 10,
        tags()[4] == "chirp"@ && variants(tags()[4]) == 12,
        tags()[5] == "coo"@ && variants(tags()[5]) == 10,
        tags()[6] == "wheee"@ && variants(tags()[6]) == 6,
{
    reveal_strlit("alarm");
    reveal_strlit("greet");
    reveal_strlit("inquire");
    reveal_strlit("peck");
    reveal_strlit("chirp");
    reveal_strlit("coo");
    reveal_strlit("wheee");
    assert("alarm"@[0] == 'a' && "greet"@[0] == 'g' && "inquire"@[0] == 'i' && "peck"@[0] == 'p'
        && "chirp"@[0] == 'c' && "coo"@[0] == 'c' && "wheee"@[0] == 'w');
    assert("chirp"@.len() == 5 && "coo"@.len() == 3);
}

proof fn lemma_tag_file(tag: int, n: nat, file: BankFile)
    requires
        0 <= tag < 7,
        n <= u32::MAX,
        file.tag == tag,
        file.variant < n,
        file.segment is Some <==> tag == 6,
    ensures
        tag_files(tag, n).contains(file),
    decreases n,
{
    let before = tag_files(tag, (n - 1) as nat);
    let all = tag_files(tag, n);
    if file.variant < n - 1 {
        lemma_tag_file(tag, (n - 1) as nat, file);
        let i = choose|i: int| 0 <= i < before.len() && before[i] == file;
        assert(all[i] == file);
    } else if tag == 6 {
        let k = before.len() as int;
        assert(all[k].segment == Some(Segment::Start) && all[k + 1].segment == Some(Segment::Loop)
            && all[k + 2].segment == Some(Segment::End));
        match file.segment->0 {
            Segment::Start => {
                assert(all[k] == file);
            },
            Segment::Loop => {
                assert(all[k + 1] == file);
            },
            Segment::End => {
                assert(all[k + 2] == file);
            },
        }
    } else {
        assert(all[before.len() as int] == file);
    }
}

proof fn lemma_file(n: nat, file: BankFile)
    requires
        n <= 7,
        file.tag < n,
        in_bank(file),
    ensures
        files_of(n).contains(file),
    decreases n,
{
    let before = files_of((n - 1) as nat);
    let last = tag_files(n - 1, variants(tags()[n - 1]) as nat);
    if file.tag < n - 1 {
        lemma_file((n - 1) as nat, file);
        let i = choose|i: int| 0 <= i < before.len() && before[i] == file;
        assert(files_of(n)[i] == file);
    } else {
        lemma_tag_file(n - 1, variants(tags()[n - 1]) as nat, file);
        let i = choose|i: int| 0 <= i < last.len() && last[i] == file;
        assert(files_of(n)[before.len() + i] == file);
    }
}

/// Every variant of every tag is in the bank; a ride in three segments, and nothing else in any.
pub proof fn every_variant_is_rendered(file: BankFile)
    requires
        file.tag < 7,
        file.variant < variants(tags()[file.tag as int]),
        file.segment is Some <==> file.tag == 6,
    ensures
        files_of(7).contains(file),
{
    lemma_file(7, file);
}

/// A variant goes by its letter, from `a` on, and a file lies in its tag's directory under its tag, its
/// segment where it has one, and its letter.
pub proof fn how_a_file_is_called(file: BankFile)
    requires
        in_bank(file),
    ensures
        letter(0) == 'a',
        letter(file.variant) as int == 97 + file.variant,
        file.segment is None ==> bank_path(file) == tags()[file.tag as int] + "/"@ + tags()[file.tag as int]
            + "_"@ + seq![letter(file.variant)] + ".wav"@,
        file.segment == Some(Segment::Start) ==> bank_path(file) == "wheee"@ + "/"@ + "wheee"@ + "_"@
            + ("start"@ + "_"@) + seq![letter(file.variant)] + ".wav"@,
        file.segment == Some(Segment::Loop) ==> bank_path(file) == "wheee"@ + "/"@ + "wheee"@ + "_"@
            + ("loop"@ + "_"@) + seq![letter(file.variant)] + ".wav"@,
        file.segment == Some(Segment::End) ==> bank_path(file) == "wheee"@ + "/"@ + "wheee"@ + "_"@
            + ("end"@ + "_"@) + seq![letter(file.variant)] + ".wav"@,
{
    the_tags_of_a_bank();
    reveal_strlit("");
    let front = tags()[file.tag as int] + "/"@ + tags()[file.tag as int] + "_"@;
    assert(front + ""@ =~= front);
}

/// A seed is the first four bytes of its digest, so that two digests give one seed exactly where they
/// begin alike.
pub proof fn a_seed_is_how_a_digest_begins(a: Seq<u8>, b: Seq<u8>)
    requires
        a.len() == 32,
        b.len() == 32,
    ensures
        digest_seed(a) == digest_seed(b) <==> a[0] == b[0] && a[1] == b[1] && a[2] == b[2] && a[3] == b[3],
        digest_seed(a) as int / 0x100_0000 == a[0],
        digest_seed(a) as int % 0x100 == a[3],
{
}

/// The serial number that is burned in counts where it can be read, the system's id only where not.
pub proof fn the_burned_in_number_counts(serial: Option<Seq<u8>>, machine: Option<Seq<char>>)
    ensures
        serial matches Some(raw) ==> hardware_text(serial, machine) == Some(serial_text(lossy_text(raw))),
        serial is None && machine is Some ==> hardware_text(serial, machine) == Some(trimmed(machine->0)),
        serial is None && machine is None ==> hardware_text(serial, machine) is None,
{
}

proof fn lemma_skip_nul(s: Seq<char>, from: int)
    requires
        0 <= from <= s.len(),
    ensures
        from <= skip_nul(s, from) <= s.len(),
        forall|i: int| from <= i < skip_nul(s, from) ==> s[i] == '\0',
        skip_nul(s, from) < s.len() ==> s[skip_nul(s, from)] != '\0',
    decreases s.len() - from,
{
    if from < s.len() && s[from] == '\0' {
        lemma_skip_nul(s, from + 1);
    }
}

proof fn lemma_nul_end(s: Seq<char>, from: int, to: int)
    requires
        0 <= from <= to <= s.len(),
    ensures
        from <= nul_end(s, from, to) <= to,
        forall|i: int| nul_end(s, from, to) <= i < to ==> s[i] == '\0',
        nul_end(s, from, to) > from ==> s[nul_end(s, from, to) - 1] != '\0',
    decreases to - from,
{
    if from < to && s[to - 1] == '\0' {
        lemma_nul_end(s, from, to - 1);
    }
}

/// A serial number is what stands between the NULs at either end, without the white space around it.
pub proof fn a_serial_number_is_cleaned(s: Seq<char>)
    ensures
        exists|from: int, to: int|
            #![trigger s.subrange(from, to)]
            {
                &&& 0 <= from <= to <= s.len()
                &&& serial_text(s) == trimmed(s.subrange(from, to))
                &&& forall|i: int| 0 <= i < from || to <= i < s.len() ==> s[i] == '\0'
                &&& from < to ==> s[from] != '\0' && s[to - 1] != '\0'
            },
{
    lemma_skip_nul(s, 0);
    let from = skip_nul(s, 0);
    lemma_nul_end(s, from, s.len() as int);
    let to = nul_end(s, from, s.len() as int);
    assert(serial_text(s) == trimmed(s.subrange(from, to)));
}

/// Of two texts the one with the lower character at the first place where they differ comes first, and
/// a text comes before whatever it begins.
pub proof fn what_comes_first(a: Seq<char>, b: Seq<char>, from: int, k: int)
    requires
        0 <= from <= k,
        k <= a.len(),
        k <= b.len(),
        forall|i: int| from <= i < k ==> a[i] == b[i],
    ensures
        k < a.len() && k < b.len() && a[k] != b[k] ==> (text_before(a, b, from) <==> a[k] < b[k]),
        k == a.len() && k < b.len() ==> text_before(a, b, from),
        k == b.len() ==> !text_before(a, b, from),
    decreases k - from,
{
    if from < k {
        assert(a[from] == b[from]);
        what_comes_first(a, b, from + 1, k);
    }
}

/// A sound is a file whose name ends in `.wav` and says something before it, and only sounds are picked
/// from.
pub proof fn only_sounds_are_picked_from(names: Seq<Seq<char>>, name: Seq<char>)
    ensures
        is_wav(name) <==> name.len() > 4 && name.subrange(name.len() - 4, name.len() as int) == ".wav"@,
        wavs(names).contains(name) <==> names.contains(name) && is_wav(name),
    decreases names.len(),
{
    reveal_strlit(".wav");
    assert(".wav"@.len() == 4);
    if names.len() > 0 {
        let rest = names.drop_last();
        only_sounds_are_picked_from(rest, name);
        if rest.contains(name) {
            let i = choose|i: int| 0 <= i < rest.len() && rest[i] == name;
            assert(names[i] == name);
        }
        if names.contains(name) {
            let i = choose|i: int| 0 <= i < names.len() && names[i] == name;
            if i < rest.len() {
                assert(rest[i] == name);
            }
        }
        let kept = wavs(rest);
        if names.last() == name {
            assert(names[names.len() - 1] == name);
            if is_wav(name) {
                assert(wavs(names)[kept.len() as int] == name);
            }
        }
        if kept.contains(name) {
            let i = choose|i: int| 0 <= i < kept.len() && kept[i] == name;
            assert(wavs(names)[i] == name);
        }
        if wavs(names).contains(name) {
            let i = choose|i: int| 0 <= i < wavs(names).len() && wavs(names)[i] == name;
            if i < kept.len() {
                assert(kept[i] == name);
            }
        }
    }
}

/// Every one of the names can be picked, in order, and the pick wraps round.
pub proof fn every_name_can_be_picked(names: Seq<Seq<char>>, roll: int)
    requires
        names.len() > 0,
        0 <= roll,
    ensures
        picked(names, roll) is Some,
        roll < names.len() ==> picked(names, roll) == Some(sorted_names(names)[roll]),
        picked(names, roll + names.len()) == picked(names, roll),
{
    let n = names.len() as int;
    vstd::arithmetic::div_mod::lemma_mod_add_multiples_vanish(roll, n);
    assert((n + roll) % n == roll % n);
    if roll < n {
        vstd::arithmetic::div_mod::lemma_small_mod(roll as nat, n as nat);
    }
}

/// A ride goes by the letter in the name of its start.
pub proof fn a_ride_goes_by_its_letter(letter: Seq<char>, name: Seq<char>)
    ensures
        ride_letter("wheee_start_"@ + letter + ".wav"@) == Some(letter),
        ride_letter(name) matches Some(l) ==> name == "wheee_start_"@ + l + ".wav"@,
{
    reveal_strlit("wheee_start_");
    reveal_strlit(".wav");
    let full = "wheee_start_"@ + letter + ".wav"@;
    let front = "wheee_start_"@.len() as int;
    assert(full.subrange(0, front) =~= "wheee_start_"@);
    assert(full.subrange(full.len() - 4, full.len() as int) =~= ".wav"@);
    assert(full.subrange(front, full.len() - 4) =~= letter);
    if let Some(l) = ride_letter(name) {
        let end = name.len() as int;
        assert(name =~= name.subrange(0, front) + name.subrange(front, end - 4) + name.subrange(end - 4, end));
    }
}

/// The rides of a directory are those that have a start.
pub proof fn which_rides_there_are(names: Seq<Seq<char>>, letter: Seq<char>)
    ensures
        ride_letters(names).contains(letter) <==> names.contains("wheee_start_"@ + letter + ".wav"@),
    decreases names.len(),
{
    let full = "wheee_start_"@ + letter + ".wav"@;
    a_ride_goes_by_its_letter(letter, full);
    if names.len() > 0 {
        let rest = names.drop_last();
        let before = ride_letters(rest);
        let all = ride_letters(names);
        which_rides_there_are(rest, letter);
        a_ride_goes_by_its_letter(letter, names.last());
        if rest.contains(full) {
            let i = choose|i: int| 0 <= i < rest.len() && rest[i] == full;
            assert(names[i] == full);
        }
        if names.contains(full) {
            let i = choose|i: int| 0 <= i < names.len() && names[i] == full;
            if i < rest.len() {
                assert(rest[i] == full);
            } else {
                assert(all[before.len() as int] == letter);
            }
        }
        if before.contains(letter) {
            let i = choose|i: int| 0 <= i < before.len() && before[i] == letter;
            assert(all[i] == letter);
        }
        if all.contains(letter) {
            let i = choose|i: int| 0 <= i < all.len() && all[i] == letter;
            if i < before.len() {
                assert(before[i] == letter);
            } else {
                assert(names[names.len() - 1] == full);
            }
        }
    }
}

} // verus!
