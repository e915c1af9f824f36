//! The key table: 512 bytes read as 64 little-endian words, and the endless
//! keystream that cycles over them.

use crate::word::le_word;
use vstd::prelude::*;

verus! {

/// Bytes in a key table.
pub const KEY_TABLE_BYTES: usize = 512;

/// Words in a key table; the keystream repeats with this period.
pub const KEY_TABLE_WORDS: usize = 64;

/// The words of a key table given as bytes: word `i` is the little-endian
/// value of bytes `8 * i .. 8 * i + 8`.
pub open spec fn table_words(bytes: Seq<u8>) -> Seq<u64>
    recommends
        bytes.len() == 512,
{
    Seq::new(64, |i: int| le_word(bytes.subrange(8 * i, 8 * i + 8)))
}

/// Word `i` of the keystream over `table`: the table's words in order, again
/// and again without end.
pub open spec fn keystream(table: Seq<u64>, i: nat) -> u64
    recommends
        table.len() == 64,
{
    table[(i % 64) as int]
}

/// An immutable table of 64 key words.
#[derive(Clone, Copy, Debug)]
pub struct KeyTable {
    words: [u64; 64],
}

impl View for KeyTable {
    type V = Seq<u64>;

    closed spec fn view(&self) -> Seq<u64> {
        self.words@
    }
}

/// Reads eight bytes as one word through `bytemuck::cast`, which
/// reinterprets the bytes as a `u64` in the machine's byte order, and
/// `u64::from_le`, which turns a word that was read as little-endian into
/// the machine's order. Together they give the little-endian value of the
/// bytes on every machine; the cast cannot fail, the two types having the
/// same size.
#[verifier::external_body]
fn cast_le_word(bytes: [u8; 8]) -> (word: u64)
    ensures
        word == le_word(bytes@),
{
    u64::from_le(bytemuck::cast::<[u8; 8], u64>(bytes))
}

impl KeyTable {
    /// Every key table holds 64 words.
    pub proof fn lemma_len(self)
        ensures
            self@.len() == 64,
    {
    }

    /// Reads a key table from its 512 bytes; any other length is no key
    /// table.
    pub fn from_bytes(bytes: &[u8]) -> (r: Option<KeyTable>)
        ensures
            r is Some <==> bytes@.len() == 512,
            r matches Some(table) ==> table@ == table_words(bytes@),
    {
        if bytes.len() != KEY_TABLE_BYTES {
            return None;
        }
        let mut words: [u64; 64] = [0u64; 64];
        let mut i: usize = 0;
        while i < KEY_TABLE_WORDS
            invariant
                i <= 64,
                bytes@.len() == 512,
                forall|j: int| 0 <= j < i ==> words@[j] == le_word(#[trigger] bytes@.subrange(8 * j, 8 * j + 8)),
            decreases 64 - i,
        {
            let at: usize = 8 * i;
            let group: [u8; 8] = [
                bytes[at],
                bytes[at + 1],
                bytes[at + 2],
                bytes[at + 3],
                bytes[at + 4],
                bytes[at + 5],
                bytes[at + 6],
                bytes[at + 7],
            ];
            assert(group@ =~= bytes@.subrange(8 * i, 8 * i + 8));
            words[i] = cast_le_word(group);
            i = i + 1;
        }
        let table = KeyTable { words };
        assert(table@ =~= table_words(bytes@));
        Some(table)
    }

    /// Takes 64 words as a key table; any other number of words is no key
    /// table.
    pub fn from_words(words: &[u64]) -> (r: Option<KeyTable>)
        ensures
            r is Some <==> words@.len() == 64,
            r matches Some(table) ==> table@ == words@,
    {
        if words.len() != KEY_TABLE_WORDS {
            return None;
        }
        let mut copy: [u64; 64] = [0u64; 64];
        let mut i: usize = 0;
        while i < KEY_TABLE_WORDS
            invariant
                i <= 64,
                words@.len() == 64,
                forall|j: int| 0 <= j < i ==> copy@[j] == words@[j],
            decreases 64 - i,
        {
            copy[i] = words[i];
            i = i + 1;
        }
        let table = KeyTable { words: copy };
        assert(table@ =~= words@);
        Some(table)
    }

    /// Word `i` of the keystream over this table.
    pub fn word(&self, i: usize) -> (r: u64)
        ensures
            r == keystream(self@, i as nat),
    {
        self.words[i % KEY_TABLE_WORDS]
    }
}

/// The first 64 keystream words are the table's words in table order, each
/// once, and from there on the keystream repeats: word `i + 64` is word `i`.
pub proof fn lemma_keystream_period(table: Seq<u64>, i: nat)
    ensures
        i < 64 ==> keystream(table, i) == table[i as int],
        keystream(table, i + 64) == keystream(table, i),
{
}

} // verus!
