//! Scene identifiers and their scrambled public form.
//!
//! A scene's numeric id never leaves the server as is: a small keyed
//! Feistel permutation over its low 30 bits, keyed by a digest of the
//! configured secret, turns it into six letters, and the inverse turns
//! six letters back into the id.
use vstd::prelude::*;

verus! {

/// The digest a seed and counter produce.  The result depends on the
/// input bytes alone.
pub uninterp spec fn md5_of(data: Seq<u8>) -> Seq<u8>;

/// Relies on md5::compute: the digest of the input bytes, 16 bytes long,
/// a function of the input alone.
#[verifier::external_body]
fn md5_digest(data: &Vec<u8>) -> (r: Vec<u8>)
    ensures
        r@ == md5_of(data@),
        r@.len() == 16,
{
    md5::compute(data.as_slice()).0.to_vec()
}

/// The round function: a keyed digest of the round counter, reduced to
/// fifteen bits.
pub open spec fn spec_random_f(n: u32, seed: Seq<u8>) -> u32 {
    let digest = md5_of(seed + seq![(n >> 16) as u8, (n >> 8) as u8, n as u8]);
    (((digest[0] & 127) as u32) * 256 + (digest[1] as u32)) as u32
}

/// Compute the round function from the seed and a round-tagged counter.
fn random_f(n: u32, seed: &Vec<u8>) -> (r: u32)
    requires
        seed@.len() <= 52,
    ensures
        r == spec_random_f(n, seed@),
        r < 0x8000,
{
    let mut buf: Vec<u8> = Vec::new();
    let mut i: usize = 0;
    while i < seed.len()
        invariant
            i <= seed@.len(),
            buf@ == seed@.take(i as int),
        decreases seed@.len() - i,
    {
        buf.push(seed[i]);
        proof {
            assert(buf@ =~= seed@.take(i + 1));
        }
        i += 1;
    }
    proof {
        assert(seed@.take(seed@.len() as int) =~= seed@);
    }
    buf.push((n >> 16) as u8);
    buf.push((n >> 8) as u8);
    buf.push(n as u8);
    proof {
        assert(buf@ =~= seed@ + seq![(n >> 16) as u8, (n >> 8) as u8, n as u8]);
    }
    let digest = md5_digest(&buf);
    let d0 = digest[0];
    let d1 = digest[1];
    proof {
        assert((d0 & 127) <= 127) by (bit_vector);
    }
    ((d0 & 127) as u32) * 256 + (d1 as u32)
}

/// The letter of one 5-bit group: the alphabet then the digits two to
/// seven.
pub open spec fn spec_letter(v: u32) -> u8 {
    if v < 26 {
        (65 + v) as u8
    } else {
        (24 + v) as u8
    }
}

fn letter(v: u32) -> (r: u8)
    requires
        v < 32,
    ensures
        r == spec_letter(v),
{
    if v < 26 {
        (65 + v) as u8
    } else {
        (24 + v) as u8
    }
}

/// The value a byte decodes to: letters, lower-case letters, and the
/// digits two to seven all map back; anything else maps to zero.
pub open spec fn spec_unletter(c: u8) -> u32 {
    if 65 <= c && c <= 90 {
        (c - 65) as u32
    } else if 97 <= c && c <= 122 {
        (c - 97) as u32
    } else if 50 <= c && c <= 55 {
        (c - 24) as u32
    } else {
        0
    }
}

fn unletter(c: u8) -> (r: u32)
    ensures
        r == spec_unletter(c),
{
    if 65 <= c && c <= 90 {
        (c - 65) as u32
    } else if 97 <= c && c <= 122 {
        (c - 97) as u32
    } else if 50 <= c && c <= 55 {
        (c - 24) as u32
    } else {
        0
    }
}

/// The four Feistel rounds over the split halves of the id.
pub open spec fn spec_rounds(n0: u32, seed: Seq<u8>) -> u32 {
    let l0 = n0 >> 15;
    let r0 = n0 & 0x7FFF;
    let r1 = r0 ^ spec_random_f(l0, seed);
    let l1 = l0 ^ spec_random_f(0x8000u32 | r1, seed);
    let r2 = r1 ^ spec_random_f(0x10000u32 | l1, seed);
    let l2 = l1 ^ spec_random_f(0x18000u32 | r2, seed);
    (l2 << 15) | r2
}

/// The six letters of the permuted id, least significant group first.
pub open spec fn spec_permute(n: i32, seed: Seq<u8>) -> Seq<u8> {
    let m = spec_rounds(n as u32, seed);
    seq![
        spec_letter(m & 31),
        spec_letter((m >> 5) & 31),
        spec_letter((m >> 10) & 31),
        spec_letter((m >> 15) & 31),
        spec_letter((m >> 20) & 31),
        spec_letter((m >> 25) & 31),
    ]
}

/// The inverse rounds, undoing `spec_rounds` half by half.
pub open spec fn spec_unrounds(m: u32, seed: Seq<u8>) -> u32 {
    let l2 = m >> 15;
    let r2 = m & 0x7FFF;
    let l1 = l2 ^ spec_random_f(0x18000u32 | r2, seed);
    let r1 = r2 ^ spec_random_f(0x10000u32 | l1, seed);
    let l0 = l1 ^ spec_random_f(0x8000u32 | r1, seed);
    let r0 = r1 ^ spec_random_f(l0, seed);
    (l0 << 15) | r0
}

/// The id six letters decode to.
pub open spec fn spec_unpermute(s: Seq<u8>, seed: Seq<u8>) -> i32 {
    let m = spec_unletter(s[0]) | (spec_unletter(s[1]) << 5) | (spec_unletter(s[2]) << 10) | (
    spec_unletter(s[3]) << 15) | (spec_unletter(s[4]) << 20) | (spec_unletter(s[5]) << 25);
    spec_unrounds(m, seed) as i32
}

/// Scramble an id into its public six letters.
fn permute(n: i32, seed: &Vec<u8>) -> (r: Vec<u8>)
    requires
        seed@.len() <= 52,
    ensures
        r@ == spec_permute(n, seed@),
{
    let n0 = n as u32;
    let l0 = n0 >> 15;
    let r0 = n0 & 0x7FFF;
    let r1 = r0 ^ random_f(l0, seed);
    let l1 = l0 ^ random_f(0x8000u32 | r1, seed);
    let r2 = r1 ^ random_f(0x10000u32 | l1, seed);
    let l2 = l1 ^ random_f(0x18000u32 | r2, seed);
    let m = (l2 << 15) | r2;
    proof {
        let mm = m;
        assert((mm & 31) < 32 && ((mm >> 5) & 31) < 32 && ((mm >> 10) & 31) < 32 && ((mm >> 15)
            & 31) < 32 && ((mm >> 20) & 31) < 32 && ((mm >> 25) & 31) < 32) by (bit_vector);
    }
    let mut out: Vec<u8> = Vec::new();
    out.push(letter(m & 31));
    out.push(letter((m >> 5) & 31));
    out.push(letter((m >> 10) & 31));
    out.push(letter((m >> 15) & 31));
    out.push(letter((m >> 20) & 31));
    out.push(letter((m >> 25) & 31));
    proof {
        assert((m & 31) < 32 && ((m >> 5) & 31) < 32 && ((m >> 10) & 31) < 32 && ((m >> 15) & 31)
            < 32 && ((m >> 20) & 31) < 32 && ((m >> 25) & 31) < 32) by (bit_vector);
        assert(out@ =~= spec_permute(n, seed@));
    }
    out
}

/// Decode six public letters back into the id.
fn unpermute(s: &Vec<u8>, seed: &Vec<u8>) -> (r: i32)
    requires
        s@.len() == 6,
        seed@.len() <= 52,
    ensures
        r == spec_unpermute(s@, seed@),
{
    let m = unletter(s[0]) | (unletter(s[1]) << 5) | (unletter(s[2]) << 10) | (unletter(s[3])
        << 15) | (unletter(s[4]) << 20) | (unletter(s[5]) << 25);
    let l2 = m >> 15;
    let r2 = m & 0x7FFF;
    let l1 = l2 ^ random_f(0x18000u32 | r2, seed);
    let r1 = r2 ^ random_f(0x10000u32 | l1, seed);
    let l0 = l1 ^ random_f(0x8000u32 | r1, seed);
    let r0 = r1 ^ random_f(l0, seed);
    #[verifier::truncate] (((l0 << 15) | r0) as i32)
}

/// A scene's numeric identifier.
#[derive(Copy, Clone, Debug, PartialEq, Eq, Structural)]
pub struct Scene(pub i32);

impl Scene {
    /// Wrap a raw id.
    pub fn new(num: i32) -> (r: Scene)
        ensures
            r.0 == num,
    {
        Scene(num)
    }

    /// The public six-letter form of the id.
    pub fn scramble(&self, seed: &Vec<u8>) -> (r: Vec<u8>)
        requires
            seed@.len() <= 52,
        ensures
            r@ == spec_permute(self.0, seed@),
            r@.len() == 6,
    {
        permute(self.0, seed)
    }

    /// The raw id.
    pub fn as_inner(&self) -> (r: i32)
        ensures
            r == self.0,
    {
        self.0
    }

    /// Decode a public six-letter form.
    pub fn descramble(s: &Vec<u8>, seed: &Vec<u8>) -> (r: Scene)
        requires
            s@.len() == 6,
            seed@.len() <= 52,
        ensures
            r.0 == spec_unpermute(s@, seed@),
    {
        Scene(unpermute(s, seed))
    }
}

/// The pure bit structure of the four rounds: packing the halves, cutting
/// them into five-bit groups, and undoing the rounds all cancel exactly
/// for ids below `2^30` and round values below `2^15`.
proof fn lemma_feistel_bits(n0: u32, f1: u32, f2: u32, f3: u32, f4: u32)
    requires
        n0 < 0x4000_0000,
        f1 < 0x8000,
        f2 < 0x8000,
        f3 < 0x8000,
        f4 < 0x8000,
    ensures
        ({
            let l0 = n0 >> 15;
            let r0 = n0 & 0x7FFF;
            let r1 = r0 ^ f1;
            let l1 = l0 ^ f2;
            let r2 = r1 ^ f3;
            let l2 = l1 ^ f4;
            let m = (l2 << 15) | r2;
            &&& m >> 15 == l2
            &&& m & 0x7FFF == r2
            &&& (m & 31) < 32 && ((m >> 5) & 31) < 32 && ((m >> 10) & 31) < 32 && ((m >> 15)
                & 31) < 32 && ((m >> 20) & 31) < 32 && ((m >> 25) & 31) < 32
            &&& (m & 31) | (((m >> 5) & 31) << 5) | (((m >> 10) & 31) << 10) | (((m >> 15) & 31)
                << 15) | (((m >> 20) & 31) << 20) | (((m >> 25) & 31) << 25) == m
            &&& l2 ^ f4 == l1
            &&& r2 ^ f3 == r1
            &&& l1 ^ f2 == l0
            &&& r1 ^ f1 == r0
            &&& (l0 << 15) | r0 == n0
        }),
{
    assert(({
        let l0 = n0 >> 15;
        let r0 = n0 & 0x7FFF;
        let r1 = r0 ^ f1;
        let l1 = l0 ^ f2;
        let r2 = r1 ^ f3;
        let l2 = l1 ^ f4;
        let m = (l2 << 15) | r2;
        &&& m >> 15 == l2
        &&& m & 0x7FFF == r2
        &&& (m & 31) < 32 && ((m >> 5) & 31) < 32 && ((m >> 10) & 31) < 32 && ((m >> 15) & 31)
            < 32 && ((m >> 20) & 31) < 32 && ((m >> 25) & 31) < 32
        &&& (m & 31) | (((m >> 5) & 31) << 5) | (((m >> 10) & 31) << 10) | (((m >> 15) & 31)
            << 15) | (((m >> 20) & 31) << 20) | (((m >> 25) & 31) << 25) == m
        &&& l2 ^ f4 == l1
        &&& r2 ^ f3 == r1
        &&& l1 ^ f2 == l0
        &&& r1 ^ f1 == r0
        &&& (l0 << 15) | r0 == n0
    })) by (bit_vector)
        requires
            n0 < 0x4000_0000,
            f1 < 0x8000,
            f2 < 0x8000,
            f3 < 0x8000,
            f4 < 0x8000,
    ;
}

/// Scrambling is reversible: decoding the six letters of any id below
/// `2^30` gives the id back, whatever the seed.
pub proof fn lemma_scramble_roundtrip(n: i32, seed: Seq<u8>)
    requires
        0 <= n < 0x4000_0000,
    ensures
        spec_unpermute(spec_permute(n, seed), seed) == n,
{
    let n0 = n as u32;
    let l0 = n0 >> 15;
    let r0 = n0 & 0x7FFF;
    let f1 = spec_random_f(l0, seed);
    let r1 = r0 ^ f1;
    let f2 = spec_random_f(0x8000u32 | r1, seed);
    let l1 = l0 ^ f2;
    let f3 = spec_random_f(0x10000u32 | l1, seed);
    let r2 = r1 ^ f3;
    let f4 = spec_random_f(0x18000u32 | r2, seed);
    let l2 = l1 ^ f4;
    let m = (l2 << 15) | r2;
    lemma_random_f_bound(l0, seed);
    lemma_random_f_bound(0x8000u32 | r1, seed);
    lemma_random_f_bound(0x10000u32 | l1, seed);
    lemma_random_f_bound(0x18000u32 | r2, seed);
    lemma_feistel_bits(n0, f1, f2, f3, f4);
    // The encoded groups decode to themselves.
    lemma_letter_roundtrip(m & 31);
    lemma_letter_roundtrip((m >> 5) & 31);
    lemma_letter_roundtrip((m >> 10) & 31);
    lemma_letter_roundtrip((m >> 15) & 31);
    lemma_letter_roundtrip((m >> 20) & 31);
    lemma_letter_roundtrip((m >> 25) & 31);
    assert(spec_rounds(n0, seed) == m);
    assert(spec_unrounds(m, seed) == n0);
    assert(n0 as i32 == n);
}

proof fn lemma_letter_roundtrip(v: u32)
    requires
        v < 32,
    ensures
        spec_unletter(spec_letter(v)) == v,
{
}

proof fn lemma_random_f_bound(n: u32, seed: Seq<u8>)
    ensures
        spec_random_f(n, seed) < 0x8000,
{
    let digest = md5_of(seed + seq![(n >> 16) as u8, (n >> 8) as u8, n as u8]);
    lemma_masked_byte_pair(digest[0], digest[1]);
}

/// Fifteen bits assembled from a masked byte and a full byte stay below
/// `2^15`.
proof fn lemma_masked_byte_pair(a: u8, b: u8)
    ensures
        ((a & 127) as u32) * 256 + (b as u32) < 0x8000,
{
    assert((a & 127) < 128) by (bit_vector);
}

} // verus!
