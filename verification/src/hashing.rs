//! Content addressing: murmur3 token hashes, the `<reg, tz>` bit partition
//! of the 32,768-bit lattice, SHA-1 content identifiers and their hex form.

use vstd::prelude::*;

verus! {

/// Number of registers of the lattice.
pub const M: usize = 1024;

/// Trailing-zero states per register.
pub const BITS_PER_REG: u32 = 32;

/// Number of bit cells in the lattice (`M * BITS_PER_REG`).
pub const TOTAL_CELLS: usize = 32768;

/// The 128-bit murmur3 (x64 variant) digest of `data` under `seed`, as
/// computed by the `fastmurmur3` crate.
pub uninterp spec fn murmur3_x64_128_digest(data: Seq<u8>, seed: u64) -> u128;

/// The SHA-1 digest of `data`, as computed by the `sha1` crate.
pub uninterp spec fn sha1_digest(data: Seq<u8>) -> Seq<u8>;

/// Calls `fastmurmur3::murmur3_x64_128`. The contract only names the result:
/// it is the digest of the bytes under the seed (read in the machine's native
/// byte order, little-endian on the supported targets).
#[verifier::external_body]
fn murmur3_x64_128(data: &[u8], seed: u64) -> (r: u128)
    ensures
        r == murmur3_x64_128_digest(data@, seed),
{
    fastmurmur3::murmur3_x64_128(data, seed)
}

/// Calls `sha1::Sha1::digest` and copies the 20 digest bytes into a vector.
/// The contract names the digest and states its length, which the type of the
/// digest (`GenericArray<u8, U20>`) fixes.
#[verifier::external_body]
fn sha1_bytes(data: &[u8]) -> (r: Vec<u8>)
    ensures
        r@ == sha1_digest(data@),
        r@.len() == 20,
{
    <sha1::Sha1 as sha1::Digest>::digest(data).to_vec()
}

/// Calls `String::from_iter` on the characters: the string holds exactly them.
#[verifier::external_body]
pub(crate) fn string_from_chars(cs: &Vec<char>) -> (s: String)
    ensures
        s@ == cs@,
{
    cs.iter().collect()
}

/// The low 64 bits of the seeded murmur3 digest.
pub open spec fn murmur3_seeded_spec(data: Seq<u8>, seed: u64) -> u64 {
    murmur3_x64_128_digest(data, seed) as u64
}

/// The content address of a token: its seed-0 murmur3 hash.
pub open spec fn content_address(data: Seq<u8>) -> u64 {
    murmur3_seeded_spec(data, 0)
}

/// Seeded murmur3 hash of `data` (low 64 bits of the x64/128 digest).
pub fn murmur3_hash_seeded(data: &[u8], seed: u64) -> (h: u64)
    ensures
        h == murmur3_seeded_spec(data@, seed),
{
    let full = murmur3_x64_128(data, seed);
    #[verifier::truncate]
    (full as u64)
}

/// Seed-0 murmur3 hash of `data`: the content address of a token.
pub fn murmur3_hash(data: &[u8]) -> (h: u64)
    ensures
        h == content_address(data@),
{
    murmur3_hash_seeded(data, 0)
}

/// Register of a hash: its low 10 bits.
pub open spec fn reg_of_hash(h: u64) -> u32 {
    (h % 1024) as u32
}

/// Trailing-zero state of a hash: trailing zeros of the bits above the
/// register, clamped to 31 (an all-zero remainder gives 31).
pub open spec fn tz_of_hash(h: u64) -> u32 {
    let tz = vstd::std_specs::bits::u64_trailing_zeros(h / 1024);
    if tz > 31 { 31 } else { tz }
}

/// Bit cell of a hash: `reg * 32 + tz`.
pub open spec fn bit_of_hash(h: u64) -> u32 {
    (reg_of_hash(h) * 32 + tz_of_hash(h)) as u32
}

/// Bit cell of a token under the seed-0 hash.
pub open spec fn token_bit(t: Seq<u8>) -> u32 {
    bit_of_hash(content_address(t))
}

/// Bit cell of a token under a given seed.
pub open spec fn seeded_bit(t: Seq<u8>, seed: u64) -> u32 {
    bit_of_hash(murmur3_seeded_spec(t, seed))
}

/// Every hash lands in a cell of the lattice.
pub proof fn lemma_bit_of_hash_in_range(h: u64)
    ensures
        reg_of_hash(h) < 1024,
        tz_of_hash(h) < 32,
        bit_of_hash(h) < TOTAL_CELLS,
        bit_of_hash(h) / 32 == reg_of_hash(h),
        bit_of_hash(h) % 32 == tz_of_hash(h),
{
    vstd::std_specs::bits::axiom_u64_trailing_zeros(h / 1024);
}

/// Decompose a hash into `(register, trailing-zero state)`.
pub fn hash_to_position(h: u64) -> (r: (u32, u32))
    ensures
        r.0 == reg_of_hash(h),
        r.1 == tz_of_hash(h),
        r.0 < 1024,
        r.1 < 32,
{
    proof {
        lemma_bit_of_hash_in_range(h);
    }
    let reg = (h % 1024) as u32;
    let tz = (h / 1024).trailing_zeros();
    let tz = if tz > 31 { 31 } else { tz };
    (reg, tz)
}

/// Bit cell `reg * 32 + tz` of a hash.
pub fn hash_to_bit(h: u64) -> (b: u32)
    ensures
        b == bit_of_hash(h),
        b < TOTAL_CELLS,
{
    proof {
        lemma_bit_of_hash_in_range(h);
    }
    let (reg, tz) = hash_to_position(h);
    reg * 32 + tz
}

/// `(register, trailing-zero state)` of a token under the seed-0 hash.
pub fn token_to_position(token: &[u8]) -> (r: (u32, u32))
    ensures
        r.0 == reg_of_hash(content_address(token@)),
        r.1 == tz_of_hash(content_address(token@)),
        r.0 * 32 + r.1 == token_bit(token@),
        r.0 < 1024,
        r.1 < 32,
{
    let h = murmur3_hash(token);
    hash_to_position(h)
}

/// Bit cell of a token under a seed.
pub fn seeded_token_bit(token: &[u8], seed: u64) -> (b: u32)
    ensures
        b == seeded_bit(token@, seed),
        b < TOTAL_CELLS,
{
    let h = murmur3_hash_seeded(token, seed);
    hash_to_bit(h)
}

/// Lower-case hex digit of a nibble.
pub open spec fn hex_digit(n: u8) -> char {
    if n < 10 { ((n + 48) as u8) as char } else { ((n - 10 + 97) as u8) as char }
}

/// Lower-case hex encoding: two digits per byte, high nibble first.
pub open spec fn hex_lower(data: Seq<u8>) -> Seq<char>
    decreases data.len(),
{
    if data.len() == 0 {
        Seq::empty()
    } else {
        hex_lower(data.drop_last()).push(hex_digit(data.last() / 16)).push(
            hex_digit(data.last() % 16),
        )
    }
}

fn nibble_char(n: u8) -> (c: char)
    requires
        n < 16,
    ensures
        c == hex_digit(n),
{
    if n < 10 {
        (n + 48) as char
    } else {
        (n - 10 + 97) as char
    }
}

/// Lower-case hex string of `data`.
pub fn to_hex_lower(data: &[u8]) -> (s: String)
    ensures
        s@ == hex_lower(data@),
        s@.len() == 2 * data@.len(),
{
    let mut out: Vec<char> = Vec::new();
    let mut i: usize = 0;
    while i < data.len()
        invariant
            i <= data@.len(),
            out@ == hex_lower(data@.take(i as int)),
            out@.len() == 2 * i,
        decreases data@.len() - i,
    {
        let b = data[i];
        out.push(nibble_char(b / 16));
        out.push(nibble_char(b % 16));
        proof {
            assert(data@.take(i + 1).drop_last() =~= data@.take(i as int));
        }
        i = i + 1;
    }
    proof {
        assert(data@.take(data@.len() as int) =~= data@);
    }
    string_from_chars(&out)
}

/// ASCII code of a lower-case hex digit.
pub open spec fn hex_digit_byte(n: u8) -> u8 {
    if n < 10 { (n + 48) as u8 } else { (n - 10 + 97) as u8 }
}

/// Lower-case hex encoding as ASCII bytes.
pub open spec fn hex_ascii(data: Seq<u8>) -> Seq<u8>
    decreases data.len(),
{
    if data.len() == 0 {
        Seq::empty()
    } else {
        hex_ascii(data.drop_last()).push(hex_digit_byte(data.last() / 16)).push(
            hex_digit_byte(data.last() % 16),
        )
    }
}

/// Lower-case hex of `data` as ASCII bytes.
pub fn to_hex_ascii(data: &[u8]) -> (r: Vec<u8>)
    ensures
        r@ == hex_ascii(data@),
{
    let mut out: Vec<u8> = Vec::new();
    let mut i: usize = 0;
    while i < data.len()
        invariant
            i <= data@.len(),
            out@ == hex_ascii(data@.take(i as int)),
        decreases data@.len() - i,
    {
        let b = data[i];
        let hi = b / 16;
        let lo = b % 16;
        out.push(if hi < 10 { hi + 48 } else { hi - 10 + 97 });
        out.push(if lo < 10 { lo + 48 } else { lo - 10 + 97 });
        proof {
            assert(data@.take(i + 1).drop_last() =~= data@.take(i as int));
        }
        i = i + 1;
    }
    proof {
        assert(data@.take(data@.len() as int) =~= data@);
    }
    out
}

/// The SHA-1 content identifier of `data` as ASCII hex bytes.
pub open spec fn sha1_hex_ascii_spec(data: Seq<u8>) -> Seq<u8> {
    hex_ascii(sha1_digest(data))
}

/// SHA-1 of `data` as lower-case hex ASCII bytes (the bytes of `sha1_hex`).
pub fn sha1_hex_ascii(data: &[u8]) -> (r: Vec<u8>)
    ensures
        r@ == sha1_hex_ascii_spec(data@),
{
    let d = sha1_bytes(data);
    to_hex_ascii(d.as_slice())
}

/// The SHA-1 content identifier of `data`: 40 lower-case hex digits.
pub open spec fn sha1_hex_spec(data: Seq<u8>) -> Seq<char> {
    hex_lower(sha1_digest(data))
}

/// SHA-1 of `data` as a lower-case hex string.
pub fn sha1_hex(data: &[u8]) -> (s: String)
    ensures
        s@ == sha1_hex_spec(data@),
        s@.len() == 40,
{
    let d = sha1_bytes(data);
    to_hex_lower(d.as_slice())
}

} // verus!
