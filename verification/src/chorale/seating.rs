//! Who sings what: seats by register, with nobody in charge.
//!
//! Every duck reaches the same answer from what it knows of the others, so nothing has to be
//! negotiated: the lowest voice sings the lowest part.

use crate::chorale::{ensembles_are_nested, Part};
use crate::rng::{crc_run, seeded, variant_mix, variant_rng, xoshiro_next, xoshiro_output};
use vstd::prelude::*;

verus! {

/// One duck's voice, as far as casting needs it.
#[derive(Debug, Clone, Copy, PartialEq, Eq, Structural)]
pub struct Voice {
    pub seed: u32,
    /// The pitch centre, in any measure that keeps its order.
    pub pitch: u64,
}

/// One duck in the ensemble.
///
/// The two draws are fractions of 2^53: a few cents of pitch and a few milliseconds of onset
/// that make four voices a choir rather than one thick organ stop.
#[derive(Debug, Clone, Copy, PartialEq, Eq, Structural)]
pub struct Singer {
    pub seed: u32,
    pub part: Part,
    pub detune: u64,
    pub onset: u64,
}

/// Whether voice `i` is cast below voice `j`: by register, then by seed, then by where they
/// stand in the list.
pub open spec fn cast_below(voices: Seq<Voice>, i: int, j: int) -> bool {
    ||| voices[i].pitch < voices[j].pitch
    ||| voices[i].pitch == voices[j].pitch && voices[i].seed < voices[j].seed
    ||| voices[i].pitch == voices[j].pitch && voices[i].seed == voices[j].seed && i < j
}

/// How many of the first `n` voices are cast below voice `j`.
pub open spec fn cast_rank(voices: Seq<Voice>, j: int, n: nat) -> nat
    decreases n,
{
    if n == 0 {
        0
    } else {
        cast_rank(voices, j, (n - 1) as nat) + (if cast_below(voices, n - 1, j) {
            1nat
        } else {
            0
        })
    }
}

/// The part at a place in an ensemble of `n`; past the last part the top line is doubled.
pub open spec fn part_at(n: nat, rank: nat) -> Part {
    let parts = Part::ensemble_parts(n);
    if rank < parts.len() {
        parts[rank as int]
    } else {
        Part::Soprano
    }
}

/// The spread a seed brings to a seat: two draws from the seat's own generator.
pub open spec fn spread(seed: u32, seat: u32) -> (u64, u64) {
    let state = seeded(variant_mix(seed, !crc_run(vstd::utf8::encode_utf8("chorale-seat"@)), seat));
    (xoshiro_output(state) >> 11, xoshiro_output(xoshiro_next(state)) >> 11)
}

/// A seed, a part and a seat number make a singer.
pub open spec fn singer(seed: u32, part: Part, seat: u32) -> Singer {
    Singer { seed, part, detune: spread(seed, seat).0, onset: spread(seed, seat).1 }
}

fn seated(seed: u32, part: Part, seat: u32) -> (s: Singer)
    ensures
        s == singer(seed, part, seat),
        s.detune < 0x20_0000_0000_0000,
        s.onset < 0x20_0000_0000_0000,
{
    let mut rng = variant_rng(seed, "chorale-seat", seat);
    let detune: u64 = rng.random();
    let onset: u64 = rng.random();
    Singer { seed, part, detune, onset }
}

/// The cast of a list of voices.
pub open spec fn casting(voices: Seq<Voice>) -> Seq<Singer> {
    Seq::new(
        voices.len(),
        |i: int|
            {
                let rank = cast_rank(voices, i, voices.len());
                singer(voices[i].seed, part_at(voices.len(), rank), rank as u32)
            },
    )
}

/// Casts an ensemble: the lowest duck sings the lowest part.
///
/// Decided from the voices alone, so that ducks agree on who sings what *without negotiating*.
pub fn cast(voices: &[Voice]) -> (singers: Vec<Singer>)
    requires
        voices@.len() <= u32::MAX,
    ensures
        singers@ == casting(voices@),
        forall|i: int|
            0 <= i < singers@.len() ==> (#[trigger] singers@[i]).detune < 0x20_0000_0000_0000
                && singers@[i].onset < 0x20_0000_0000_0000,
{
    let parts = Part::ensemble(voices.len());
    let mut singers: Vec<Singer> = Vec::new();
    let mut i: usize = 0;
    while i < voices.len()
        invariant
            i <= voices@.len() <= u32::MAX,
            parts@ == Part::ensemble_parts(voices@.len()),
            singers@.len() == i,
            forall|k: int| 0 <= k < i ==> singers@[k] == casting(voices@)[k],
            forall|k: int|
                0 <= k < i ==> (#[trigger] singers@[k]).detune < 0x20_0000_0000_0000 && singers@[k].onset
                    < 0x20_0000_0000_0000,
        decreases voices@.len() - i,
    {
        let voice = voices[i];
        let mut rank: usize = 0;
        let mut j: usize = 0;
        while j < voices.len()
            invariant
                i < voices@.len(),
                voice == voices@[i as int],
                j <= voices@.len(),
                rank <= j,
                rank == cast_rank(voices@, i as int, j as nat),
            decreases voices@.len() - j,
        {
            let other = voices[j];
            if other.pitch < voice.pitch || (other.pitch == voice.pitch && other.seed < voice.seed) || (
            other.pitch == voice.pitch && other.seed == voice.seed && j < i) {
                rank = rank + 1;
            }
            j = j + 1;
        }
        let part = if rank < parts.len() {
            parts[rank]
        } else {
            Part::Soprano
        };
        singers.push(seated(voice.seed, part, rank as u32));
        i = i + 1;
    }
    proof {
        assert(singers@ =~= casting(voices@));
    }
    singers
}

/// Whether position `i` of a roster lies below position `j`: by register, then by place.
pub open spec fn roster_below(registers: Seq<u64>, i: int, j: int) -> bool {
    registers[i] < registers[j] || (registers[i] == registers[j] && i < j)
}

/// How many of the first `n` positions lie below position `j`.
pub open spec fn roster_rank(registers: Seq<u64>, j: int, n: nat) -> nat
    decreases n,
{
    if n == 0 {
        0
    } else {
        roster_rank(registers, j, (n - 1) as nat) + (if roster_below(registers, n - 1, j) {
            1nat
        } else {
            0
        })
    }
}

/// Every position's part, in roster order.
pub open spec fn roster_parts(registers: Seq<u64>) -> Seq<Part> {
    Seq::new(
        registers.len(),
        |i: int| part_at(registers.len(), roster_rank(registers, i, registers.len())),
    )
}

/// Every duck's part, from a roster of registers: the roster's own order in, parts out.
///
/// By register, not by roster position: the parts of the ensemble are handed out lowest voice to
/// lowest part, and two ducks on one register keep roster order between them. More ducks than
/// parts double the top line.
pub fn seat_all(registers: &[u64]) -> (parts: Vec<Part>)
    ensures
        parts@ == roster_parts(registers@),
{
    let ensemble = Part::ensemble(registers.len());
    let mut parts: Vec<Part> = Vec::new();
    let mut i: usize = 0;
    while i < registers.len()
        invariant
            i <= registers@.len(),
            ensemble@ == Part::ensemble_parts(registers@.len()),
            parts@.len() == i,
            forall|k: int| 0 <= k < i ==> parts@[k] == roster_parts(registers@)[k],
        decreases registers@.len() - i,
    {
        let register: u64 = registers[i];
        let mut rank: usize = 0;
        let mut j: usize = 0;
        while j < registers.len()
            invariant
                i < registers@.len(),
                register == registers@[i as int],
                j <= registers@.len(),
                rank <= j,
                rank == roster_rank(registers@, i as int, j as nat),
            decreases registers@.len() - j,
        {
            let other: u64 = registers[j];
            if other < register || (other == register && j < i) {
                rank = rank + 1;
            }
            j = j + 1;
        }
        if rank < ensemble.len() {
            parts.push(ensemble[rank]);
        } else {
            parts.push(Part::Soprano);
        }
        i = i + 1;
    }
    proof {
        assert(parts@ =~= roster_parts(registers@));
    }
    parts
}

proof fn lemma_roster_rank(registers: Seq<u64>, i: int, j: int, n: nat)
    requires
        0 <= i < registers.len(),
        0 <= j < registers.len(),
        n <= registers.len(),
        roster_below(registers, i, j),
    ensures
        roster_rank(registers, i, n) + (if i < n {
            1nat
        } else {
            0
        }) <= roster_rank(registers, j, n),
    decreases n,
{
    if n > 0 {
        lemma_roster_rank(registers, i, j, (n - 1) as nat);
    }
}

/// The lower of two voices in a roster never sings above the other, and up to four ducks no two
/// sing the same part.
pub proof fn parts_go_by_register(registers: Seq<u64>, i: int, j: int)
    requires
        0 <= i < registers.len(),
        0 <= j < registers.len(),
        roster_below(registers, i, j),
    ensures
        roster_parts(registers)[i].rank() <= roster_parts(registers)[j].rank(),
        registers.len() <= 4 ==> roster_parts(registers)[i] != roster_parts(registers)[j],
{
    let n = registers.len();
    lemma_roster_rank(registers, i, j, n);
    let parts = Part::ensemble_parts(n);
    if n <= 4 {
        lemma_roster_bound(registers, j, n);
    }
}

proof fn lemma_roster_bound(registers: Seq<u64>, j: int, n: nat)
    requires
        0 <= j < registers.len(),
        n <= registers.len(),
    ensures
        roster_rank(registers, j, n) <= n,
        j < n ==> roster_rank(registers, j, n) < n,
    decreases n,
{
    if n > 0 {
        lemma_roster_bound(registers, j, (n - 1) as nat);
    }
}

/// Every place in a roster's order of registers is taken by exactly one position.
pub proof fn every_place_is_taken_once(registers: Seq<u64>, place: nat) -> (i: int)
    requires
        place < registers.len(),
    ensures
        0 <= i < registers.len(),
        roster_rank(registers, i, registers.len()) == place,
        forall|j: int|
            0 <= j < registers.len() && j != i ==> #[trigger] roster_rank(
                registers,
                j,
                registers.len(),
            ) != place,
{
    let n = registers.len();
    let ranks = Seq::new(n, |i: int| roster_rank(registers, i, n) as int);
    assert forall|i: int, j: int| 0 <= i < n && 0 <= j < n && i != j implies ranks[i] != ranks[j] by {
        if roster_below(registers, i, j) {
            lemma_roster_rank(registers, i, j, n);
        } else {
            lemma_roster_rank(registers, j, i, n);
        }
    }
    ranks.unique_seq_to_set();
    vstd::set_lib::lemma_int_range(0, n as int);
    vstd::seq_lib::seq_to_set_is_finite(ranks);
    assert forall|r: int| ranks.to_set().contains(r) implies vstd::set_lib::set_int_range(
        0,
        n as int,
    ).contains(r) by {
        let i = choose|i: int| 0 <= i < n && ranks[i] == r;
        lemma_roster_bound(registers, i, n);
    }
    vstd::set_lib::lemma_subset_equality(
        ranks.to_set(),
        vstd::set_lib::set_int_range(0, n as int),
    );
    assert(ranks.to_set().contains(place as int));
    let i = choose|i: int| 0 <= i < n && ranks[i] == place;
    assert forall|j: int| 0 <= j < n && j != i implies #[trigger] roster_rank(registers, j, n) != place by {
        assert(ranks[i] != ranks[j]);
    }
    i
}

/// Up to four ducks sing the parts of their ensemble, each of them once.
pub proof fn a_small_roster_sings_each_part_once(registers: Seq<u64>)
    requires
        registers.len() <= 4,
    ensures
        roster_parts(registers).to_multiset() == Part::ensemble_parts(registers.len()).to_multiset(),
{
    broadcast use vstd::seq_lib::group_to_multiset_ensures;

    let n = registers.len();
    let sung = roster_parts(registers);
    let parts = Part::ensemble_parts(n);
    ensembles_are_nested(n);
    assert forall|i: int, j: int| 0 <= i < n && 0 <= j < n && i != j implies sung[i] != sung[j] by {
        if roster_below(registers, i, j) {
            parts_go_by_register(registers, i, j);
        } else {
            parts_go_by_register(registers, j, i);
        }
    }
    assert forall|part: Part| #[trigger] sung.contains(part) <==> parts.contains(part) by {
        if sung.contains(part) {
            let i = choose|i: int| 0 <= i < n && sung[i] == part;
            lemma_roster_bound(registers, i, n);
            assert(parts[roster_rank(registers, i, n) as int] == part);
        }
        if parts.contains(part) {
            let place = choose|k: int| 0 <= k < parts.len() && parts[k] == part;
            let i = every_place_is_taken_once(registers, place as nat);
            assert(sung[i] == part);
        }
    }
    sung.lemma_multiset_has_no_duplicates();
    parts.lemma_multiset_has_no_duplicates();
    assert forall|part: Part| sung.to_multiset().count(part) == parts.to_multiset().count(part) by {
        assert(sung.contains(part) <==> parts.contains(part));
    }
    assert(sung.to_multiset() =~= parts.to_multiset());
}

/// Of more than four ducks the three lowest sing bass, tenor and alto, one each, and all others
/// double the top line.
pub proof fn a_large_roster_doubles_the_top_line(registers: Seq<u64>, i: int)
    requires
        registers.len() > 4,
        0 <= i < registers.len(),
    ensures
        roster_parts(registers)[i] == Part::ranked(
            roster_rank(registers, i, registers.len()) as int,
        ),
{
}

proof fn lemma_rank_of_pushed(registers: Seq<u64>, register: u64, i: int, n: nat)
    requires
        0 <= i < registers.len(),
        n <= registers.len(),
    ensures
        roster_rank(registers.push(register), i, n) == roster_rank(registers, i, n),
    decreases n,
{
    if n > 0 {
        lemma_rank_of_pushed(registers, register, i, (n - 1) as nat);
    }
}

/// Where among the voices a newcomer to an ensemble of `n` is missing: at the bottom of a duet to
/// be, in the middle of a larger one.
pub open spec fn gap(n: nat) -> nat {
    if n < 2 {
        0
    } else {
        1
    }
}

/// A duck that arrives at the register the ensemble was missing moves nobody.
pub proof fn a_joiner_in_the_gap_moves_nobody(registers: Seq<u64>, register: u64, i: int)
    requires
        registers.len() < 4,
        roster_rank(registers.push(register), registers.len() as int, registers.len() + 1) == gap(
            registers.len(),
        ),
        0 <= i < registers.len(),
    ensures
        roster_parts(registers.push(register))[i] == roster_parts(registers)[i],
{
    let n = registers.len();
    let all = registers.push(register);
    lemma_rank_of_pushed(registers, register, i, n);
    lemma_roster_bound(registers, i, n);
    if roster_below(all, i, n as int) {
        lemma_roster_rank(all, i, n as int, n + 1);
    } else {
        lemma_roster_rank(all, n as int, i, n + 1);
    }
}

/// How many registers of a list lie below a register, whatever their order.
pub open spec fn registers_below(registers: Seq<u64>, register: u64) -> nat
    decreases registers.len(),
{
    if registers.len() == 0 {
        0
    } else {
        registers_below(registers.drop_last(), register) + (if registers.last() < register {
            1nat
        } else {
            0
        })
    }
}

proof fn lemma_register_rank(registers: Seq<u64>, j: int, n: nat)
    requires
        0 <= j < registers.len(),
        n <= registers.len(),
        registers.no_duplicates(),
    ensures
        roster_rank(registers, j, n) == registers_below(registers.take(n as int), registers[j]),
    decreases n,
{
    if n > 0 {
        lemma_register_rank(registers, j, (n - 1) as nat);
        assert(registers.take(n as int).drop_last() =~= registers.take(n - 1));
        assert(registers.take(n as int).last() == registers[n - 1]);
    }
}

proof fn lemma_registers_remove(registers: Seq<u64>, at: int, register: u64)
    requires
        0 <= at < registers.len(),
    ensures
        registers_below(registers, register) == registers_below(registers.remove(at), register) + (
        if registers[at] < register {
            1nat
        } else {
            0
        }),
    decreases registers.len(),
{
    if at == registers.len() - 1 {
        assert(registers.remove(at) =~= registers.drop_last());
    } else {
        let rest = registers.drop_last();
        lemma_registers_remove(rest, at, register);
        assert(registers.remove(at).drop_last() =~= rest.remove(at));
        assert(registers.remove(at).last() == registers.last());
        assert(rest[at] == registers[at]);
    }
}

proof fn lemma_registers_same(a: Seq<u64>, b: Seq<u64>, register: u64)
    requires
        a.to_multiset() == b.to_multiset(),
    ensures
        registers_below(a, register) == registers_below(b, register),
        a.len() == b.len(),
    decreases a.len(),
{
    broadcast use vstd::seq_lib::group_to_multiset_ensures;

    assert(a.len() == a.to_multiset().len());
    assert(b.len() == b.to_multiset().len());
    if a.len() > 0 {
        let last = a.last();
        assert(a.contains(last)) by {
            assert(a[a.len() - 1] == last);
        }
        assert(a.to_multiset().count(last) > 0);
        assert(b.contains(last));
        let at = choose|k: int| 0 <= k < b.len() && b[k] == last;
        let rest = b.remove(at);
        assert(a =~= a.drop_last().push(last));
        assert(b =~= rest.insert(at, last));
        assert(a.drop_last().to_multiset() =~= rest.to_multiset());
        lemma_registers_same(a.drop_last(), rest, register);
        lemma_registers_remove(b, at, register);
    }
}

/// The order of a roster of different registers does not matter: a register is given the same part
/// wherever it stands.
pub proof fn seating_ignores_roster_order(a: Seq<u64>, b: Seq<u64>, i: int, j: int)
    requires
        a.to_multiset() == b.to_multiset(),
        a.no_duplicates(),
        b.no_duplicates(),
        0 <= i < a.len(),
        0 <= j < b.len(),
        a[i] == b[j],
    ensures
        roster_parts(a)[i] == roster_parts(b)[j],
{
    lemma_registers_same(a, b, a[i]);
    lemma_register_rank(a, i, a.len());
    lemma_register_rank(b, j, b.len());
    assert(a.take(a.len() as int) =~= a);
    assert(b.take(b.len() as int) =~= b);
}

proof fn lemma_cast_rank(voices: Seq<Voice>, i: int, j: int, n: nat)
    requires
        0 <= i < voices.len(),
        0 <= j < voices.len(),
        n <= voices.len(),
        cast_below(voices, i, j),
    ensures
        cast_rank(voices, i, n) <= cast_rank(voices, j, n),
    decreases n,
{
    if n > 0 {
        lemma_cast_rank(voices, i, j, (n - 1) as nat);
    }
}

proof fn lemma_part_at(n: nat, low: nat, high: nat)
    requires
        low <= high,
    ensures
        part_at(n, low).rank() <= part_at(n, high).rank(),
{
}

proof fn lemma_cast_part(voices: Seq<Voice>, i: int)
    requires
        0 <= i < voices.len(),
    ensures
        casting(voices)[i].seed == voices[i].seed,
        casting(voices)[i].part == part_at(voices.len(), cast_rank(voices, i, voices.len())),
{
}

/// A cast has one singer for each voice, in the same order and under the same seed; the lower of
/// two voices never sings above the other.
pub proof fn a_cast_goes_by_pitch(voices: Seq<Voice>, i: int, j: int)
    requires
        0 <= i < voices.len(),
        0 <= j < voices.len(),
        cast_below(voices, i, j),
    ensures
        casting(voices).len() == voices.len(),
        casting(voices)[i].seed == voices[i].seed,
        casting(voices)[j].seed == voices[j].seed,
        casting(voices)[i].part.rank() <= casting(voices)[j].part.rank(),
{
    let n = voices.len();
    lemma_cast_rank(voices, i, j, n);
    lemma_part_at(n, cast_rank(voices, i, n), cast_rank(voices, j, n));
    lemma_cast_part(voices, i);
    lemma_cast_part(voices, j);
    assert(casting(voices).len() == voices.len());
}

/// Every singer of a cast has a part of the ensemble, and a spread that is a fraction.
pub proof fn a_cast_keeps_to_the_ensemble(voices: Seq<Voice>, i: int)
    requires
        0 <= i < voices.len(),
    ensures
        Part::ensemble_parts(voices.len()).contains(casting(voices)[i].part),
        casting(voices)[i].detune < 0x20_0000_0000_0000,
        casting(voices)[i].onset < 0x20_0000_0000_0000,
{
    let n = voices.len();
    let parts = Part::ensemble_parts(n);
    let rank = cast_rank(voices, i, n);
    assert(parts.last() == Part::Soprano);
    if rank < parts.len() {
        assert(parts[rank as int] == casting(voices)[i].part);
    } else {
        assert(parts[parts.len() - 1] == casting(voices)[i].part);
    }
    let seed = voices[i].seed;
    let state = seeded(
        variant_mix(seed, !crc_run(vstd::utf8::encode_utf8("chorale-seat"@)), rank as u32),
    );
    let first = xoshiro_output(state);
    let second = xoshiro_output(xoshiro_next(state));
    assert(first >> 11 < 0x20_0000_0000_0000) by (bit_vector);
    assert(second >> 11 < 0x20_0000_0000_0000) by (bit_vector);
}

/// How many voices of a list lie below a voice, whatever their order.
pub open spec fn voices_below(voices: Seq<Voice>, voice: Voice) -> nat
    decreases voices.len(),
{
    if voices.len() == 0 {
        0
    } else {
        let last = voices.last();
        voices_below(voices.drop_last(), voice) + (if last.pitch < voice.pitch || (last.pitch == voice.pitch
            && last.seed < voice.seed) {
            1nat
        } else {
            0
        })
    }
}

/// Whether no two voices of a list share both register and seed.
pub open spec fn distinct(voices: Seq<Voice>) -> bool {
    forall|i: int, j: int| 0 <= i < j < voices.len() ==> voices[i] != voices[j]
}

proof fn lemma_rank_is_count(voices: Seq<Voice>, j: int, n: nat)
    requires
        0 <= j < voices.len(),
        n <= voices.len(),
        distinct(voices),
    ensures
        cast_rank(voices, j, n) == voices_below(voices.take(n as int), voices[j]),
    decreases n,
{
    if n > 0 {
        lemma_rank_is_count(voices, j, (n - 1) as nat);
        assert(voices.take(n as int).drop_last() =~= voices.take(n - 1));
        assert(voices.take(n as int).last() == voices[n - 1]);
        if n - 1 < j {
            assert(voices[n - 1] != voices[j]);
        } else if j < n - 1 {
            assert(voices[j] != voices[n - 1]);
        }
    }
}

proof fn lemma_below_remove(voices: Seq<Voice>, at: int, voice: Voice)
    requires
        0 <= at < voices.len(),
    ensures
        voices_below(voices, voice) == voices_below(voices.remove(at), voice) + (if voices[at].pitch
            < voice.pitch || (voices[at].pitch == voice.pitch && voices[at].seed < voice.seed) {
            1nat
        } else {
            0
        }),
    decreases voices.len(),
{
    if at == voices.len() - 1 {
        assert(voices.remove(at) =~= voices.drop_last());
    } else {
        let rest = voices.drop_last();
        lemma_below_remove(rest, at, voice);
        assert(voices.remove(at).drop_last() =~= rest.remove(at));
        assert(voices.remove(at).last() == voices.last());
        assert(rest[at] == voices[at]);
    }
}

proof fn lemma_below_same(a: Seq<Voice>, b: Seq<Voice>, voice: Voice)
    requires
        a.to_multiset() == b.to_multiset(),
    ensures
        voices_below(a, voice) == voices_below(b, voice),
        a.len() == b.len(),
    decreases a.len(),
{
    broadcast use vstd::seq_lib::group_to_multiset_ensures;

    assert(a.len() == a.to_multiset().len());
    assert(b.len() == b.to_multiset().len());
    if a.len() > 0 {
        let last = a.last();
        assert(a.contains(last)) by {
            assert(a[a.len() - 1] == last);
        }
        assert(a.to_multiset().count(last) > 0);
        assert(b.contains(last));
        let at = choose|k: int| 0 <= k < b.len() && b[k] == last;
        let rest = b.remove(at);
        assert(a =~= a.drop_last().push(last));
        assert(b =~= rest.insert(at, last));
        assert(a.drop_last().to_multiset() =~= rest.to_multiset());
        lemma_below_same(a.drop_last(), rest, voice);
        lemma_below_remove(b, at, voice);
    }
}

/// Casting does not depend on the order the ducks are listed in: the same duck gets the same
/// part and the same spread, whatever order discovery produced.
pub proof fn casting_ignores_arrival_order(a: Seq<Voice>, b: Seq<Voice>, i: int, j: int)
    requires
        a.to_multiset() == b.to_multiset(),
        distinct(a),
        distinct(b),
        0 <= i < a.len(),
        0 <= j < b.len(),
        a[i] == b[j],
    ensures
        casting(a)[i] == casting(b)[j],
{
    lemma_below_same(a, b, a[i]);
    lemma_rank_is_count(a, i, a.len());
    lemma_rank_is_count(b, j, b.len());
    assert(a.take(a.len() as int) =~= a);
    assert(b.take(b.len() as int) =~= b);
}

/// How far a part's centre lies from a register in millionths of a semitone.
pub open spec fn distance(part: Part, register: int) -> int {
    let d = part.centre() * 1_000_000 - register;
    if d < 0 {
        -d
    } else {
        d
    }
}

/// Whether a newcomer would rather sing `a` than `b`: nearer first, lower of two equally near.
pub open spec fn prefers(a: Part, b: Part, register: int) -> bool {
    distance(a, register) < distance(b, register) || (distance(a, register) == distance(b, register)
        && a.rank() <= b.rank())
}

/// The parts open to a newcomer: the free ones of the next larger ensemble, or all of them where
/// none is free.
pub open spec fn open_to(held: Seq<Part>, part: Part) -> bool {
    let wanted = Part::ensemble_parts(held.len() + 1);
    let any_free = exists|p: Part| #[trigger] wanted.contains(p) && !held.contains(p);
    wanted.contains(part) && (any_free ==> !held.contains(part))
}

fn is_held(held: &[Part], part: Part) -> (yes: bool)
    ensures
        yes == held@.contains(part),
{
    let mut at: usize = 0;
    while at < held.len()
        invariant
            at <= held@.len(),
            forall|i: int| 0 <= i < at ==> held@[i] != part,
        decreases held@.len() - at,
    {
        if held[at] == part {
            return true;
        }
        at = at + 1;
    }
    false
}

fn would_rather(a: Part, b: Part, register: i64) -> (yes: bool)
    ensures
        yes == prefers(a, b, register as int),
{
    let x: i128 = a.register() as i128 * 1_000_000 - register as i128;
    let y: i128 = b.register() as i128 * 1_000_000 - register as i128;
    let da: i128 = if x < 0 {
        -x
    } else {
        x
    };
    let db: i128 = if y < 0 {
        -y
    } else {
        y
    };
    da < db || (da == db && a.index() <= b.index())
}

/// The part a duck of this register takes, given the parts already held. The register is a MIDI
/// pitch in millionths.
///
/// **Nobody already singing changes part.** A joiner takes what is free, the nearest to its own
/// voice; past four the parts double up.
pub fn seat_by_register(held: &[Part], register: i64) -> (part: Part)
    requires
        held@.len() < usize::MAX,
    ensures
        open_to(held@, part),
        forall|other: Part| #[trigger] open_to(held@, other) ==> prefers(part, other, register as int),
{
    let wanted = Part::ensemble(held.len() + 1);
    let mut free: Vec<Part> = Vec::new();
    let mut at: usize = 0;
    while at < wanted.len()
        invariant
            at <= wanted@.len(),
            forall|i: int|
                0 <= i < free@.len() ==> wanted@.contains(#[trigger] free@[i]) && !held@.contains(
                    free@[i],
                ),
            forall|i: int| 0 <= i < at && !held@.contains(wanted@[i]) ==> free@.contains(
                #[trigger] wanted@[i],
            ),
        decreases wanted@.len() - at,
    {
        let part = wanted[at];
        let ghost before = free@;
        if !is_held(held, part) {
            free.push(part);
            proof {
                assert(free@[before.len() as int] == part);
                assert forall|i: int| 0 <= i < at + 1 && !held@.contains(wanted@[i]) implies free@.contains(
                    #[trigger] wanted@[i],
                ) by {
                    if i < at {
                        let k = choose|k: int| 0 <= k < before.len() && before[k] == wanted@[i];
                        assert(free@[k] == wanted@[i]);
                    }
                }
            }
        }
        at = at + 1;
    }
    proof {
        assert(wanted@.len() > 0);
        if free@.len() > 0 {
            assert(wanted@.contains(free@[0]) && !held@.contains(free@[0]));
        }
        assert forall|p: Part| #[trigger] wanted@.contains(p) && !held@.contains(p) implies free@.contains(
            p,
        ) by {
            let i = choose|i: int| 0 <= i < wanted@.len() && wanted@[i] == p;
            assert(free@.contains(wanted@[i]));
        }
    }
    let ghost some_free = free@.len() > 0;
    let choices: Vec<Part> = if free.len() > 0 {
        free
    } else {
        wanted
    };
    proof {
        assert forall|p: Part| #[trigger] open_to(held@, p) <==> choices@.contains(p) by {
            if choices@.contains(p) {
                let k = choose|k: int| 0 <= k < choices@.len() && choices@[k] == p;
                assert(choices@[k] == p);
            }
        }
    }
    let mut best = choices[0];
    let mut k: usize = 1;
    assert(choices@.contains(choices@[0]));
    while k < choices.len()
        invariant
            1 <= k <= choices@.len(),
            choices@.contains(best),
            forall|i: int| 0 <= i < k ==> prefers(best, #[trigger] choices@[i], register as int),
        decreases choices@.len() - k,
    {
        let other = choices[k];
        if !would_rather(best, other, register) {
            best = other;
            assert(choices@[k as int] == best);
        }
        k = k + 1;
    }
    proof {
        assert forall|other: Part| #[trigger] open_to(held@, other) implies prefers(
            best,
            other,
            register as int,
        ) by {
            let i = choose|i: int| 0 <= i < choices@.len() && choices@[i] == other;
            assert(prefers(best, choices@[i], register as int));
        }
    }
    best
}

/// Seats one more duck alongside a group that is already singing. Its spread goes by how many
/// were already singing, which does not change for it later.
pub fn seat(existing: &[Part], seed: u32, register: i64) -> (s: Singer)
    requires
        existing@.len() < u32::MAX,
    ensures
        s == singer(seed, s.part, existing@.len() as u32),
        open_to(existing@, s.part),
        forall|other: Part| #[trigger]
            open_to(existing@, other) ==> prefers(s.part, other, register as int),
{
    let part = seat_by_register(existing, register);
    seated(seed, part, existing.len() as u32)
}

/// The spread one duck brings to a part it was told to sing.
pub fn seat_for(seed: u32, part: Part) -> (s: Singer)
    ensures
        s == singer(seed, part, part.rank() as u32),
        s.detune < 0x20_0000_0000_0000,
        s.onset < 0x20_0000_0000_0000,
{
    seated(seed, part, part.index() as u32)
}

/// While an ensemble of fewer than four sings its own parts, exactly one part is open to a
/// newcomer, and it is one that nobody holds: joining moves nobody, whatever the newcomer's
/// register.
pub proof fn a_joiner_finds_one_free_part(held: Seq<Part>, a: Part, b: Part)
    requires
        held.len() < 4,
        forall|p: Part| #[trigger]
            held.contains(p) <==> Part::ensemble_parts(held.len()).contains(p),
        open_to(held, a),
        open_to(held, b),
    ensures
        a == b,
        !held.contains(a),
{
    let n = held.len();
    let small = Part::ensemble_parts(n);
    let wanted = Part::ensemble_parts(n + 1);
    ensembles_are_nested(n);
    let newly = if n == 0 {
        Part::Soprano
    } else if n == 1 {
        Part::Bass
    } else if n == 2 {
        Part::Alto
    } else {
        Part::Tenor
    };
    assert(wanted.contains(newly)) by {
        if n == 0 {
            assert(wanted[0] == newly);
        } else if n == 1 {
            assert(wanted[0] == newly);
        } else if n == 2 {
            assert(wanted[1] == newly);
        } else {
            assert(wanted[1] == newly);
        }
    }
    assert(!small.contains(newly));
    assert forall|p: Part| #[trigger] wanted.contains(p) && p != newly implies small.contains(p) by {
        if n == 1 {
            assert(small[0] == p);
        } else if n == 2 {
            assert(small[0] == p || small[1] == p);
        } else if n == 3 {
            assert(small[0] == p || small[1] == p || small[2] == p);
        }
    }
    assert(wanted.contains(newly) && !held.contains(newly));
    assert(wanted.contains(a) && wanted.contains(b));
}

/// A newcomer would rather sing the part whose range lies nearer: on the centre of a part's range that
/// part before every other, and between two parts the upper one exactly above the middle.
pub proof fn the_nearer_part_is_preferred(a: Part, b: Part, register: int)
    requires
        a != b,
    ensures
        register == a.centre() * 1_000_000 ==> prefers(a, b, register) && !prefers(b, a, register),
        a.centre() < b.centre() ==> (prefers(b, a, register) <==> 2 * register > (a.centre() + b.centre())
            * 1_000_000),
        prefers(a, b, register) || prefers(b, a, register),
        !(prefers(a, b, register) && prefers(b, a, register)),
{
}

/// While a part of the next larger ensemble is free, only free ones are open; where none is, all are.
pub proof fn what_is_open_to_a_newcomer(held: Seq<Part>, free: Part, part: Part)
    requires
        Part::ensemble_parts(held.len() + 1).contains(part),
    ensures
        Part::ensemble_parts(held.len() + 1).contains(free) && !held.contains(free) ==> (open_to(held, part)
            <==> !held.contains(part)),
        (forall|p: Part| Part::ensemble_parts(held.len() + 1).contains(p) ==> #[trigger] held.contains(p))
            ==> open_to(held, part),
{
}

/// The lowest voice of an ensemble sings its lowest part and the next the next; who comes after the
/// last part doubles the top line.
pub proof fn places_are_parts(n: nat, rank: nat)
    ensures
        n >= 2 ==> part_at(n, 0) == Part::Bass,
        n == 1 ==> part_at(n, 0) == Part::Soprano,
        n >= 4 && rank < 4 ==> part_at(n, rank) == Part::ranked(rank as int),
        n <= 4 && rank + 1 == n ==> part_at(n, rank) == Part::Soprano,
        n == 3 ==> part_at(n, 1) == Part::Alto,
        rank >= n || rank >= 4 ==> part_at(n, rank) == Part::Soprano,
{
}

/// A singer keeps its seed and its part, and two ducks of one seed on one seat are spread alike.
pub proof fn what_a_singer_is(seed: u32, part: Part, other: Part, seat: u32)
    ensures
        singer(seed, part, seat).seed == seed,
        singer(seed, part, seat).part == part,
        singer(seed, part, seat).detune == singer(seed, other, seat).detune,
        singer(seed, part, seat).onset == singer(seed, other, seat).onset,
{
}

} // verus!
