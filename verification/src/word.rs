//! Words: eight bytes read as one 64-bit unsigned integer, least significant
//! byte first, and the reversible transform that the cipher applies to a word.

use vstd::prelude::*;

verus! {

/// Bits in one word; rotation amounts repeat with this period.
pub const WORD_BITS: usize = 64;

/// The value of eight bytes, the first one least significant:
/// `bytes[0] + 256 * bytes[1] + ... + 256^7 * bytes[7]`.
pub open spec fn le_word(bytes: Seq<u8>) -> u64
    recommends
        bytes.len() == 8,
{
    (bytes[0] + 0x100 * (bytes[1] + 0x100 * (bytes[2] + 0x100 * (bytes[3] + 0x100 * (bytes[4]
        + 0x100 * (bytes[5] + 0x100 * (bytes[6] + 0x100 * bytes[7]))))))) as u64
}

/// Byte `i` of a word, counted from the least significant one: the `i`-th
/// digit of `word` written in base 256.
pub open spec fn le_byte(word: u64, i: int) -> u8
    recommends
        0 <= i < 8,
{
    if i == 0 {
        (word % 0x100) as u8
    } else if i == 1 {
        ((word / 0x100) % 0x100) as u8
    } else if i == 2 {
        ((word / 0x1_0000) % 0x100) as u8
    } else if i == 3 {
        ((word / 0x100_0000) % 0x100) as u8
    } else if i == 4 {
        ((word / 0x1_0000_0000) % 0x100) as u8
    } else if i == 5 {
        ((word / 0x100_0000_0000) % 0x100) as u8
    } else if i == 6 {
        ((word / 0x1_0000_0000_0000) % 0x100) as u8
    } else {
        ((word / 0x100_0000_0000_0000) % 0x100) as u8
    }
}

/// The eight bytes of a word, least significant first.
pub open spec fn le_bytes(word: u64) -> Seq<u8> {
    Seq::new(8, |i: int| le_byte(word, i))
}

/// `v` rotated left by `s` bit positions, for `s` below 64.
pub open spec fn rotl_bits(v: u64, s: u64) -> u64
    recommends
        s < 64,
{
    if s == 0 {
        v
    } else {
        (v << s) | (v >> ((64 - s) as u64))
    }
}

/// `v` rotated right by `s` bit positions, for `s` below 64.
pub open spec fn rotr_bits(v: u64, s: u64) -> u64
    recommends
        s < 64,
{
    if s == 0 {
        v
    } else {
        (v >> s) | (v << ((64 - s) as u64))
    }
}

/// The rotation amount that belongs to the chunk at stream position `i`:
/// `i` modulo 64.
pub open spec fn rotation(i: nat) -> nat {
    i % 64
}

/// `v` rotated left by `n` bit positions; `n` counts modulo 64.
pub open spec fn rotl(v: u64, n: nat) -> u64 {
    rotl_bits(v, (n % 64) as u64)
}

/// `v` rotated right by `n` bit positions; `n` counts modulo 64.
pub open spec fn rotr(v: u64, n: nat) -> u64 {
    rotr_bits(v, (n % 64) as u64)
}

/// The plain word behind cipher word `v` at stream position `i`, under
/// keystream word `k`.
pub open spec fn decrypted_word(v: u64, i: nat, k: u64) -> u64 {
    rotl(v ^ k, rotation(i))
}

/// The cipher word for plain word `v` at stream position `i`, under keystream
/// word `k`.
pub open spec fn encrypted_word(v: u64, i: nat, k: u64) -> u64 {
    rotr(v, rotation(i)) ^ k
}

/// Reads eight bytes as a word, least significant byte first.
pub fn word_from_le(bytes: &[u8; 8]) -> (word: u64)
    ensures
        word == le_word(bytes@),
{
    let b0: u64 = bytes[0] as u64;
    let b1: u64 = bytes[1] as u64;
    let b2: u64 = bytes[2] as u64;
    let b3: u64 = bytes[3] as u64;
    let b4: u64 = bytes[4] as u64;
    let b5: u64 = bytes[5] as u64;
    let b6: u64 = bytes[6] as u64;
    let b7: u64 = bytes[7] as u64;
    assert(b0 | b1 << 8 | b2 << 16 | b3 << 24 | b4 << 32 | b5 << 40 | b6 << 48 | b7 << 56 == b0
        + 0x100 * (b1 + 0x100 * (b2 + 0x100 * (b3 + 0x100 * (b4 + 0x100 * (b5 + 0x100 * (b6 + 0x100
        * b7))))))) by (bit_vector)
        requires
            b0 < 0x100,
            b1 < 0x100,
            b2 < 0x100,
            b3 < 0x100,
            b4 < 0x100,
            b5 < 0x100,
            b6 < 0x100,
            b7 < 0x100,
    ;
    b0 | b1 << 8 | b2 << 16 | b3 << 24 | b4 << 32 | b5 << 40 | b6 << 48 | b7 << 56
}

/// Writes a word as eight bytes, least significant byte first.
pub fn word_to_le(word: u64) -> (bytes: [u8; 8])
    ensures
        bytes@ == le_bytes(word),
{
    assert((word & 0xff) == word % 0x100 && ((word >> 8) & 0xff) == (word / 0x100) % 0x100 && ((word
        >> 16) & 0xff) == (word / 0x1_0000) % 0x100 && ((word >> 24) & 0xff) == (word / 0x100_0000)
        % 0x100 && ((word >> 32) & 0xff) == (word / 0x1_0000_0000) % 0x100 && ((word >> 40) & 0xff)
        == (word / 0x100_0000_0000) % 0x100 && ((word >> 48) & 0xff) == (word
        / 0x1_0000_0000_0000) % 0x100 && ((word >> 56) & 0xff) == (word / 0x100_0000_0000_0000)
        % 0x100) by (bit_vector);
    let bytes: [u8; 8] = [
        (word & 0xff) as u8,
        ((word >> 8) & 0xff) as u8,
        ((word >> 16) & 0xff) as u8,
        ((word >> 24) & 0xff) as u8,
        ((word >> 32) & 0xff) as u8,
        ((word >> 40) & 0xff) as u8,
        ((word >> 48) & 0xff) as u8,
        ((word >> 56) & 0xff) as u8,
    ];
    assert(bytes@ =~= le_bytes(word));
    bytes
}

/// Rotates `v` left by `n` bit positions, `n` taken modulo 64.
pub fn rotate_left(v: u64, n: u32) -> (r: u64)
    ensures
        r == rotl(v, n as nat),
{
    let s: u32 = n % 64;
    if s == 0 {
        v
    } else {
        (v << s) | (v >> (64 - s))
    }
}

/// Rotates `v` right by `n` bit positions, `n` taken modulo 64.
pub fn rotate_right(v: u64, n: u32) -> (r: u64)
    ensures
        r == rotr(v, n as nat),
{
    let s: u32 = n % 64;
    if s == 0 {
        v
    } else {
        (v >> s) | (v << (64 - s))
    }
}

/// Decrypts one word: XOR with the keystream word, followed by a left
/// rotation by the amount that belongs to stream position `index`.
pub fn decrypt_word(v: u64, index: usize, key_word: u64) -> (r: u64)
    ensures
        r == decrypted_word(v, index as nat, key_word),
{
    rotate_left(v ^ key_word, (index % WORD_BITS) as u32)
}

/// Encrypts one word: a right rotation by the amount that belongs to stream
/// position `index`, followed by XOR with the keystream word.
pub fn encrypt_word(v: u64, index: usize, key_word: u64) -> (r: u64)
    ensures
        r == encrypted_word(v, index as nat, key_word),
{
    rotate_right(v, (index % WORD_BITS) as u32) ^ key_word
}

/// A word written as bytes and read back is the same word.
pub proof fn lemma_word_of_its_bytes(word: u64)
    ensures
        le_bytes(word).len() == 8,
        le_word(le_bytes(word)) == word,
{
    assert(word == word % 0x100 + 0x100 * ((word / 0x100) % 0x100 + 0x100 * ((word / 0x1_0000)
        % 0x100 + 0x100 * ((word / 0x100_0000) % 0x100 + 0x100 * ((word / 0x1_0000_0000) % 0x100
        + 0x100 * ((word / 0x100_0000_0000) % 0x100 + 0x100 * ((word / 0x1_0000_0000_0000) % 0x100
        + 0x100 * ((word / 0x100_0000_0000_0000) % 0x100)))))))) by (bit_vector);
    let bytes = le_bytes(word);
    assert(bytes[0] == word % 0x100);
    assert(bytes[1] == (word / 0x100) % 0x100);
    assert(bytes[2] == (word / 0x1_0000) % 0x100);
    assert(bytes[3] == (word / 0x100_0000) % 0x100);
    assert(bytes[4] == (word / 0x1_0000_0000) % 0x100);
    assert(bytes[5] == (word / 0x100_0000_0000) % 0x100);
    assert(bytes[6] == (word / 0x1_0000_0000_0000) % 0x100);
    assert(bytes[7] == (word / 0x100_0000_0000_0000) % 0x100);
}

/// Eight bytes read as a word and written back are the same bytes.
pub proof fn lemma_bytes_of_their_word(bytes: Seq<u8>)
    requires
        bytes.len() == 8,
    ensures
        le_bytes(le_word(bytes)) == bytes,
{
    let b0: u64 = bytes[0] as u64;
    let b1: u64 = bytes[1] as u64;
    let b2: u64 = bytes[2] as u64;
    let b3: u64 = bytes[3] as u64;
    let b4: u64 = bytes[4] as u64;
    let b5: u64 = bytes[5] as u64;
    let b6: u64 = bytes[6] as u64;
    let b7: u64 = bytes[7] as u64;
    let word: u64 = le_word(bytes);
    assert(word % 0x100 == b0 && (word / 0x100) % 0x100 == b1 && (word / 0x1_0000) % 0x100 == b2 && (
    word / 0x100_0000) % 0x100 == b3 && (word / 0x1_0000_0000) % 0x100 == b4 && (word
        / 0x100_0000_0000) % 0x100 == b5 && (word / 0x1_0000_0000_0000) % 0x100 == b6 && (word
        / 0x100_0000_0000_0000) % 0x100 == b7) by (bit_vector)
        requires
            b0 < 0x100,
            b1 < 0x100,
            b2 < 0x100,
            b3 < 0x100,
            b4 < 0x100,
            b5 < 0x100,
            b6 < 0x100,
            b7 < 0x100,
            word == b0 + 0x100 * (b1 + 0x100 * (b2 + 0x100 * (b3 + 0x100 * (b4 + 0x100 * (b5 + 0x100
                * (b6 + 0x100 * b7)))))),
    ;
    assert(le_bytes(word) =~= bytes);
}

/// Rotating left and right by the same amount cancel, in either order.
pub proof fn lemma_rotations_cancel(v: u64, n: nat)
    ensures
        rotl(rotr(v, n), n) == v,
        rotr(rotl(v, n), n) == v,
{
    let s: u64 = (n % 64) as u64;
    assert(rotl_bits(rotr_bits(v, s), s) == v) by (bit_vector)
        requires
            s < 64,
    ;
    assert(rotr_bits(rotl_bits(v, s), s) == v) by (bit_vector)
        requires
            s < 64,
    ;
}

/// A rotation by a multiple of 64 changes nothing, and the amount counts
/// modulo 64.
pub proof fn lemma_rotation_amount_wraps(v: u64, n: nat)
    ensures
        rotl(v, 0) == v,
        rotr(v, 0) == v,
        rotl(v, n + 64) == rotl(v, n),
        rotr(v, n + 64) == rotr(v, n),
{
}

/// Bit `j` of a left rotation by `s` is bit `j - s` of the word, counted
/// modulo 64; a right rotation moves the bits the other way.
pub proof fn lemma_rotation_moves_bits(v: u64, s: u64, j: u64)
    requires
        s < 64,
        j < 64,
    ensures
        (rotl_bits(v, s) >> j) & 1 == (v >> (((j + 64 - s) % 64) as u64)) & 1,
        (rotr_bits(v, s) >> j) & 1 == (v >> (((j + s) % 64) as u64)) & 1,
{
    assert((rotl_bits(v, s) >> j) & 1 == (v >> (((j + 64 - s) % 64) as u64)) & 1) by (bit_vector)
        requires
            s < 64,
            j < 64,
    ;
    assert((rotr_bits(v, s) >> j) & 1 == (v >> (((j + s) % 64) as u64)) & 1) by (bit_vector)
        requires
            s < 64,
            j < 64,
    ;
}

/// The rotation amount at stream position `i` is the one at position
/// `i + 64`, so with the same keystream word a word is transformed alike at
/// both positions.
pub proof fn lemma_rotation_period(i: nat)
    ensures
        rotation(i + 64) == rotation(i),
        rotation(i) < 64,
        forall|v: u64, k: u64| decrypted_word(v, i + 64, k) == decrypted_word(v, i, k),
        forall|v: u64, k: u64| encrypted_word(v, i + 64, k) == encrypted_word(v, i, k),
{
}

/// Decrypting inverts encrypting, and encrypting inverts decrypting, at the
/// same stream position under the same keystream word.
pub proof fn lemma_word_transforms_cancel(v: u64, i: nat, k: u64)
    ensures
        decrypted_word(encrypted_word(v, i, k), i, k) == v,
        encrypted_word(decrypted_word(v, i, k), i, k) == v,
{
    let w: u64 = rotr(v, rotation(i));
    assert((w ^ k) ^ k == w) by (bit_vector);
    lemma_rotations_cancel(v, rotation(i));
    let x: u64 = v ^ k;
    lemma_rotations_cancel(x, rotation(i));
    assert(x ^ k == v) by (bit_vector)
        requires
            x == v ^ k,
    ;
}

} // verus!
