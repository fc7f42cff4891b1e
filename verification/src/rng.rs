//! The small deterministic generator every voice is derived from.
//!
//! A robot's voice is *derived*, not stored: the bank is rendered again from the seed on every
//! install that bumps the bank version, so the generator IS the voice, and it is written out
//! here rather than borrowed, so that it cannot drift.
//!
//! xoshiro256++ seeded through splitmix64. Fractions take the top 53 bits.

use vstd::prelude::*;

verus! {

/// One step of splitmix64's counter.
pub open spec fn splitmix_next(x: u64) -> u64 {
    vstd::wrapping::u64_specs::wrapping_add(x, 0x9E37_79B9_7F4A_7C15)
}

/// splitmix64's output for a counter.
pub open spec fn splitmix_mix(x: u64) -> u64 {
    let a = vstd::wrapping::u64_specs::wrapping_mul(x ^ (x >> 30), 0xBF58_476D_1CE4_E5B9);
    let b = vstd::wrapping::u64_specs::wrapping_mul(a ^ (a >> 27), 0x94D0_49BB_1331_11EB);
    b ^ (b >> 31)
}

/// The four words a seed expands into.
pub open spec fn seeded(seed: u32) -> (u64, u64, u64, u64) {
    let a = splitmix_next(seed as u64);
    let b = splitmix_next(a);
    let c = splitmix_next(b);
    let d = splitmix_next(c);
    (splitmix_mix(a), splitmix_mix(b), splitmix_mix(c), splitmix_mix(d))
}

/// A word turned left by `by` bits.
pub open spec fn turned(x: u64, by: u64) -> u64 {
    (x << by) | (x >> ((64 - by) as u64))
}

/// What xoshiro256++ hands out in a state.
pub open spec fn xoshiro_output(s: (u64, u64, u64, u64)) -> u64 {
    vstd::wrapping::u64_specs::wrapping_add(
        turned(vstd::wrapping::u64_specs::wrapping_add(s.0, s.3), 23),
        s.0,
    )
}

/// The state xoshiro256++ moves to.
pub open spec fn xoshiro_next(s: (u64, u64, u64, u64)) -> (u64, u64, u64, u64) {
    let s2 = s.2 ^ s.0;
    let s3 = s.3 ^ s.1;
    (s.0 ^ s3, s.1 ^ s2, s2 ^ (s.1 << 17), turned(s3, 45))
}

/// A deterministic stream of draws.
pub struct Rng {
    s0: u64,
    s1: u64,
    s2: u64,
    s3: u64,
}

fn mixed(x: u64) -> (z: u64)
    ensures
        z == splitmix_mix(x),
{
    let a: u64 = (x ^ (x >> 30)).wrapping_mul(0xBF58_476D_1CE4_E5B9);
    let b: u64 = (a ^ (a >> 27)).wrapping_mul(0x94D0_49BB_1331_11EB);
    b ^ (b >> 31)
}

impl Rng {
    /// The generator's state.
    pub closed spec fn state(self) -> (u64, u64, u64, u64) {
        (self.s0, self.s1, self.s2, self.s3)
    }

    /// Seeds from 32 bits, expanded so that small seeds still start well mixed.
    pub fn from_seed(seed: u32) -> (rng: Self)
        ensures
            rng.state() == seeded(seed),
    {
        let a: u64 = (seed as u64).wrapping_add(0x9E37_79B9_7F4A_7C15);
        let b: u64 = a.wrapping_add(0x9E37_79B9_7F4A_7C15);
        let c: u64 = b.wrapping_add(0x9E37_79B9_7F4A_7C15);
        let d: u64 = c.wrapping_add(0x9E37_79B9_7F4A_7C15);
        Rng { s0: mixed(a), s1: mixed(b), s2: mixed(c), s3: mixed(d) }
    }

    /// The next 64 bits.
    pub fn next_u64(&mut self) -> (out: u64)
        ensures
            out == xoshiro_output(old(self).state()),
            final(self).state() == xoshiro_next(old(self).state()),
    {
        let sum: u64 = self.s0.wrapping_add(self.s3);
        let out: u64 = ((sum << 23) | (sum >> 41)).wrapping_add(self.s0);
        let t: u64 = self.s1 << 17;
        self.s2 = self.s2 ^ self.s0;
        self.s3 = self.s3 ^ self.s1;
        self.s1 = self.s1 ^ self.s2;
        self.s0 = self.s0 ^ self.s3;
        self.s2 = self.s2 ^ t;
        self.s3 = (self.s3 << 45) | (self.s3 >> 19);
        out
    }

    /// A fraction of one, uniform in `[0, 1)`, counted in parts of 2^53.
    pub fn random(&mut self) -> (parts: u64)
        ensures
            parts == xoshiro_output(old(self).state()) >> 11,
            parts < 0x20_0000_0000_0000,
            final(self).state() == xoshiro_next(old(self).state()),
    {
        let bits = self.next_u64();
        assert(bits >> 11 < 0x20_0000_0000_0000) by (bit_vector);
        bits >> 11
    }
}

/// One bit of the reflected CRC-32 division.
pub open spec fn crc_bit(crc: u32) -> u32 {
    if crc & 1 == 1 {
        (crc >> 1) ^ 0xEDB8_8320
    } else {
        crc >> 1
    }
}

/// `n` bits of it.
pub open spec fn crc_bits(crc: u32, n: nat) -> u32
    decreases n,
{
    if n == 0 {
        crc
    } else {
        crc_bit(crc_bits(crc, (n - 1) as nat))
    }
}

/// The remainder after a run of bytes.
pub open spec fn crc_run(data: Seq<u8>) -> u32
    decreases data.len(),
{
    if data.len() == 0 {
        0xFFFF_FFFF
    } else {
        crc_bits(crc_run(data.drop_last()) ^ (data.last() as u32), 8)
    }
}

/// CRC-32 (IEEE): the hash that tells one tag's variants from another's.
pub fn crc32(data: &[u8]) -> (crc: u32)
    ensures
        crc == !crc_run(data@),
{
    let mut crc: u32 = 0xFFFF_FFFF;
    let mut at: usize = 0;
    while at < data.len()
        invariant
            at <= data@.len(),
            crc == crc_run(data@.take(at as int)),
        decreases data@.len() - at,
    {
        let ghost before = data@.take(at as int);
        crc = crc ^ (data[at] as u32);
        let ghost start = crc;
        let mut bit: u32 = 0;
        while bit < 8
            invariant
                bit <= 8,
                crc == crc_bits(start, bit as nat),
            decreases 8 - bit,
        {
            crc = if crc & 1 == 1 {
                (crc >> 1) ^ 0xEDB8_8320
            } else {
                crc >> 1
            };
            bit = bit + 1;
        }
        at = at + 1;
        proof {
            let now = data@.take(at as int);
            assert(now.drop_last() =~= before);
            assert(now.last() == data@[at - 1]);
        }
    }
    proof {
        assert(data@.take(at as int) =~= data@);
    }
    !crc
}

proof fn lemma_bit(x: u32, y: u32, z: u32)
    ensures
        crc_bit(x ^ y ^ z) == crc_bit(x) ^ crc_bit(y) ^ crc_bit(z),
        crc_bit(x) == crc_bit(y) ==> x == y,
{
    assert(crc_bit(x ^ y ^ z) == crc_bit(x) ^ crc_bit(y) ^ crc_bit(z)) by (bit_vector);
    assert(crc_bit(x) == crc_bit(y) ==> x == y) by (bit_vector);
}

proof fn lemma_bits(x: u32, y: u32, z: u32, n: nat)
    ensures
        crc_bits(x ^ y ^ z, n) == crc_bits(x, n) ^ crc_bits(y, n) ^ crc_bits(z, n),
        crc_bits(x, n) == crc_bits(y, n) ==> x == y,
    decreases n,
{
    if n > 0 {
        let m = (n - 1) as nat;
        lemma_bits(x, y, z, m);
        lemma_bit(crc_bits(x, m), crc_bits(y, m), crc_bits(z, m));
    }
}

/// Three runs of bytes of one length, combined byte by byte.
pub open spec fn combined(a: Seq<u8>, b: Seq<u8>, c: Seq<u8>) -> Seq<u8> {
    Seq::new(a.len(), |i: int| a[i] ^ b[i] ^ c[i])
}

proof fn lemma_run(a: Seq<u8>, b: Seq<u8>, c: Seq<u8>)
    requires
        a.len() == b.len() == c.len(),
    ensures
        crc_run(combined(a, b, c)) == crc_run(a) ^ crc_run(b) ^ crc_run(c),
    decreases a.len(),
{
    if a.len() == 0 {
        let ones: u32 = 0xFFFF_FFFF;
        assert(ones ^ ones ^ ones == ones) by (bit_vector)
            requires
                ones == 0xFFFF_FFFFu32,
        ;
    } else {
        lemma_run(a.drop_last(), b.drop_last(), c.drop_last());
        assert(combined(a, b, c).drop_last() =~= combined(
            a.drop_last(),
            b.drop_last(),
            c.drop_last(),
        ));
        let (x, y, z) = (crc_run(a.drop_last()), crc_run(b.drop_last()), crc_run(c.drop_last()));
        let (p, q, r) = (a.last(), b.last(), c.last());
        assert((x ^ y ^ z) ^ ((p ^ q ^ r) as u32) == (x ^ (p as u32)) ^ (y ^ (q as u32)) ^ (z ^ (
        r as u32))) by (bit_vector);
        lemma_bits(x ^ (p as u32), y ^ (q as u32), z ^ (r as u32), 8);
    }
}

/// The hash is linear: that of three runs of bytes of one length, combined, is the three hashes
/// combined.
pub proof fn a_checksum_is_linear(a: Seq<u8>, b: Seq<u8>, c: Seq<u8>)
    requires
        a.len() == b.len() == c.len(),
    ensures
        !crc_run(combined(a, b, c)) == !crc_run(a) ^ !crc_run(b) ^ !crc_run(c),
{
    lemma_run(a, b, c);
    let (x, y, z) = (crc_run(a), crc_run(b), crc_run(c));
    assert(!(x ^ y ^ z) == !x ^ !y ^ !z) by (bit_vector);
}

/// A single changed byte never goes unnoticed.
pub proof fn a_changed_byte_changes_the_checksum(a: Seq<u8>, b: Seq<u8>, k: int)
    requires
        a.len() == b.len(),
        0 <= k < a.len(),
        a[k] != b[k],
        forall|i: int| 0 <= i < a.len() && i != k ==> a[i] == b[i],
    ensures
        !crc_run(a) != !crc_run(b),
    decreases a.len(),
{
    let (x, y) = (crc_run(a.drop_last()), crc_run(b.drop_last()));
    let (p, q) = (a.last(), b.last());
    if k == a.len() - 1 {
        assert(a.drop_last() =~= b.drop_last());
    } else {
        a_changed_byte_changes_the_checksum(a.drop_last(), b.drop_last(), k);
    }
    assert(x == y && p != q ==> x ^ (p as u32) != y ^ (q as u32)) by (bit_vector);
    assert(x != y && p == q ==> x ^ (p as u32) != y ^ (q as u32)) by (bit_vector);
    lemma_bits(x ^ (p as u32), y ^ (q as u32), 0, 8);
    let (u, v) = (crc_run(a), crc_run(b));
    assert(u != v ==> !u != !v) by (bit_vector);
}

/// The seed of one variant of one tag of a voice.
pub open spec fn variant_mix(seed: u32, tag: u32, variant: u32) -> u32 {
    (((seed * 1_000_003) as u64) ^ (tag as u64) ^ ((variant * 2_654_435_761) as u64)) as u32
}

/// A generator that is the same for a voice, a tag and a variant, wherever and whenever it is
/// made.
///
/// The tag enters through its CRC-32 rather than a salted hash, which would make every variant
/// different in each process.
pub fn variant_rng(seed: u32, tag: &str, variant: u32) -> (rng: Rng)
    ensures
        rng.state() == seeded(variant_mix(seed, !crc_run(vstd::utf8::encode_utf8(tag@)), variant)),
{
    let hash = crc32(tag.as_bytes());
    let h: u64 = (seed as u64 * 1_000_003) ^ (hash as u64) ^ (variant as u64 * 2_654_435_761);
    Rng::from_seed(h as u32)
}

/// Turning a word loses no bit: by as much as is left of the sixty-four, it is back where it was.
pub proof fn a_turned_word_turns_back(x: u64)
    ensures
        turned(turned(x, 23), 41) == x,
        turned(turned(x, 45), 19) == x,
{
    assert((((x << 23) | (x >> 41)) << 41) | (((x << 23) | (x >> 41)) >> 23) == x) by (bit_vector);
    assert((((x << 45) | (x >> 19)) << 19) | (((x << 45) | (x >> 19)) >> 45) == x) by (bit_vector);
    assert((64 - 23) as u64 == 41 && (64 - 41) as u64 == 23 && (64 - 45) as u64 == 19 && (64 - 19) as u64
        == 45);
}

/// The generator never falls into another's track: two states that move to the same state are the same
/// state.
pub proof fn no_two_states_meet(s: (u64, u64, u64, u64), t: (u64, u64, u64, u64))
    requires
        xoshiro_next(s) == xoshiro_next(t),
    ensures
        s == t,
{
    let (a, b, c, d) = s;
    let (e, f, g, h) = t;
    a_turned_word_turns_back(d ^ b);
    a_turned_word_turns_back(h ^ f);
    assert(d ^ b == h ^ f);
    assert(a == e) by (bit_vector)
        requires
            d ^ b == h ^ f,
            a ^ (d ^ b) == e ^ (h ^ f),
    ;
    assert(b == f) by (bit_vector)
        requires
            b ^ (c ^ a) == f ^ (g ^ e),
            (c ^ a) ^ (b << 17) == (g ^ e) ^ (f << 17),
    ;
    assert(c == g) by (bit_vector)
        requires
            a == e,
            b == f,
            b ^ (c ^ a) == f ^ (g ^ e),
    ;
    assert(d == h) by (bit_vector)
        requires
            b == f,
            d ^ b == h ^ f,
    ;
}

/// Voices, tags and variants that differ in one thing draw from different seeds, as far as thirty-two
/// bits tell them apart.
pub proof fn variants_draw_apart(seed: u32, tag: u32, other: u32, variant: u32)
    requires
        tag != other,
    ensures
        variant_mix(seed, tag, variant) != variant_mix(seed, other, variant),
{
    let a = (seed * 1_000_003) as u64;
    let b = (variant * 2_654_435_761) as u64;
    assert((a ^ (tag as u64) ^ b) as u32 != (a ^ (other as u64) ^ b) as u32) by (bit_vector)
        requires
            tag != other,
    ;
}

} // verus!
