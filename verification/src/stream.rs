//! The cipher on a stream of bytes: one forward pass that cuts the bytes
//! into chunks of eight, zero-padded at the end, reads each chunk as a
//! little-endian word, transforms the word with the next keystream word and
//! the rotation that belongs to its position, and hands out the eight
//! little-endian bytes of the result.

use crate::array_chunks_pad::{chunk, chunk_count, padded, ArrayChunksPad};
use crate::key::{keystream, KeyTable};
use crate::word::{
    decrypt_word, decrypted_word, encrypt_word, encrypted_word, le_bytes, le_word,
    lemma_bytes_of_their_word, lemma_word_of_its_bytes, lemma_word_transforms_cancel,
    word_from_le, word_to_le,
};
use vstd::prelude::*;
use vstd::std_specs::iter::IteratorSpec;

verus! {

/// The value that fills up the last chunk of a stream.
pub const FILLER: u8 = 0;

/// The direction of the transform.
#[derive(Clone, Copy, Debug, PartialEq, Eq, Structural)]
pub enum Mode {
    /// From cipher bytes to plain bytes.
    Decrypt,
    /// From plain bytes to cipher bytes.
    Encrypt,
}

/// What word `v` at stream position `i` becomes under keystream word `k`.
pub open spec fn transformed_word(mode: Mode, v: u64, i: nat, k: u64) -> u64 {
    match mode {
        Mode::Decrypt => decrypted_word(v, i, k),
        Mode::Encrypt => encrypted_word(v, i, k),
    }
}

/// What a chunk of eight bytes at stream position `i` becomes: its word is
/// transformed under word `i` of the keystream over `table`.
pub open spec fn transformed_chunk(mode: Mode, bytes: Seq<u8>, i: nat, table: Seq<u64>) -> Seq<u8>
    recommends
        bytes.len() == 8,
{
    le_bytes(transformed_word(mode, le_word(bytes), i, keystream(table, i)))
}

/// What a whole stream becomes: chunk `k` of `input`, zero-padded where it
/// is the short last one, transformed at position `k`; the results one
/// after the other, in the order of the chunks.
pub open spec fn transformed(mode: Mode, input: Seq<u8>, table: Seq<u64>) -> Seq<u8> {
    Seq::new(
        8 * chunk_count(input.len(), 8),
        |p: int| transformed_chunk(mode, chunk(input, FILLER, 8, p / 8), (p / 8) as nat, table)[p % 8],
    )
}

/// A pull-based cursor over the transformed chunks of a source of bytes.
/// Each call of `next` reads at most eight bytes from the source and gives
/// the next eight bytes of output, so a caller can pass a stream of any
/// length through it with nothing held but one chunk.
pub struct Pipeline<I> where I: Iterator<Item = u8> {
    chunks: ArrayChunksPad<I, 8>,
    table: KeyTable,
    mode: Mode,
    phase: usize,
}

impl<I> Pipeline<I> where I: Iterator<Item = u8> {
    /// The last chunk is filled up with zero, and the position counts
    /// modulo 64.
    pub closed spec fn wf(self) -> bool {
        &&& self.chunks.filler() == FILLER
        &&& self.phase < 64
    }

    /// The source as far as it is still to be read; `None` once its end has
    /// been seen.
    pub closed spec fn source(self) -> Option<I> {
        self.chunks.source()
    }

    /// The words of the key table.
    pub closed spec fn table(self) -> Seq<u64> {
        self.table@
    }

    /// The direction of the transform.
    pub closed spec fn mode(self) -> Mode {
        self.mode
    }

    /// The number of chunks handed out so far, modulo 64: it fixes both the
    /// keystream word and the rotation amount of the next chunk.
    pub closed spec fn phase(self) -> nat {
        self.phase as nat
    }

    /// The position counts modulo 64.
    pub proof fn lemma_phase_bound(self)
        requires
            self.wf(),
        ensures
            self.phase() < 64,
    {
    }

    /// A cursor at the start of `reader`, at stream position 0.
    pub fn new(reader: I, table: &KeyTable, mode: Mode) -> (r: Self)
        ensures
            r.wf(),
            r.source() == Some(reader),
            r.table() == table@,
            r.mode() == mode,
            r.phase() == 0,
    {
        Pipeline { chunks: ArrayChunksPad::new(reader, FILLER), table: *table, mode, phase: 0 }
    }

    /// The next eight bytes of output, or `None` at the end.
    ///
    /// With `rest` for what the source still holds: an empty `rest` gives
    /// `None`; otherwise the result is the first chunk of `rest`,
    /// zero-padded where `rest` is shorter than eight bytes, transformed at
    /// the current position, and the position moves on by one. The source
    /// moves on by eight bytes where it held that many, and is dropped
    /// where it did not.
    pub fn next(&mut self) -> (r: Option<[u8; 8]>)
        requires
            old(self).wf(),
        ensures
            final(self).wf(),
            final(self).table() == old(self).table(),
            final(self).mode() == old(self).mode(),
            r is None ==> final(self).phase() == old(self).phase(),
            r is Some ==> final(self).phase() == (old(self).phase() + 1) % 64,
            old(self).source() is None ==> r is None,
            r is None ==> final(self).source() is None,
            old(self).source() matches Some(it) ==> it.obeys_prophetic_iter_laws() ==> ({
                let rest = it.remaining();
                &&& rest.len() == 0 ==> r is None
                &&& rest.len() > 0 ==> (r matches Some(block) && block@ == transformed_chunk(
                    old(self).mode(),
                    chunk(rest, FILLER, 8, 0),
                    old(self).phase(),
                    old(self).table(),
                ))
                &&& rest.len() < 8 ==> final(self).source() is None
                &&& rest.len() >= 8 ==> (final(self).source() matches Some(left)
                    && left.obeys_prophetic_iter_laws() && left.remaining() == rest.skip(8)
                    && (it.decrease() is Some ==> left.decrease() is Some && it.decrease()->0
                    > left.decrease()->0))
            }),
    {
        match self.chunks.next() {
            None => None,
            Some(bytes) => {
                let index: usize = self.phase;
                let key_word: u64 = self.table.word(index);
                let v: u64 = word_from_le(&bytes);
                let w: u64 = match self.mode {
                    Mode::Decrypt => decrypt_word(v, index, key_word),
                    Mode::Encrypt => encrypt_word(v, index, key_word),
                };
                self.phase = (index + 1) % 64;
                Some(word_to_le(w))
            },
        }
    }
}

/// Appends the eight bytes of `block` to `writer`.
fn write_block(writer: &mut Vec<u8>, block: &[u8; 8])
    ensures
        final(writer)@ == old(writer)@ + block@,
{
    let mut j: usize = 0;
    while j < 8
        invariant
            j <= 8,
            writer@ == old(writer)@ + block@.take(j as int),
        decreases 8 - j,
    {
        writer.push(block[j]);
        j = j + 1;
    }
}

/// The chunk at position `k` extends the output by its eight transformed
/// bytes: with the first `8 * k` bytes of the output written, the next
/// eight are the chunk that starts at `8 * k`, transformed at position `k`,
/// and the position enters the transform modulo 64 only.
proof fn lemma_transformed_step(
    mode: Mode,
    input: Seq<u8>,
    table: Seq<u64>,
    k: int,
    phase: nat,
    block: Seq<u8>,
)
    requires
        0 <= k,
        8 * k < input.len(),
        phase == k % 64,
        block == transformed_chunk(mode, chunk(input.skip(8 * k), FILLER, 8, 0), phase, table),
    ensures
        8 * (k + 1) <= transformed(mode, input, table).len(),
        transformed(mode, input, table).take(8 * k) + block == transformed(mode, input, table).take(
            8 * (k + 1),
        ),
        input.len() >= 8 * (k + 1) ==> input.skip(8 * k).skip(8) == input.skip(8 * (k + 1)),
        input.len() < 8 * (k + 1) ==> 8 * (k + 1) == transformed(mode, input, table).len(),
{
    let whole = transformed(mode, input, table);
    assert(chunk(input.skip(8 * k), FILLER, 8, 0) =~= chunk(input, FILLER, 8, k));
    assert(block == transformed_chunk(mode, chunk(input, FILLER, 8, k), k as nat, table));
    assert(block.len() == 8);
    assert forall|j: int| 0 <= j < 8 implies block[j] == whole[8 * k + j] by {
        assert((8 * k + j) / 8 == k);
        assert((8 * k + j) % 8 == j);
    }
    assert(whole.take(8 * k) + block =~= whole.take(8 * (k + 1)));
    if input.len() >= 8 * (k + 1) {
        assert(input.skip(8 * k).skip(8) =~= input.skip(8 * (k + 1)));
    }
}

/// Passes all of `reader` through the cipher in direction `mode` and
/// appends the output to `writer`, in order.
pub fn transform<R>(mode: Mode, reader: R, writer: &mut Vec<u8>, key: &KeyTable) where
    R: Iterator<Item = u8>,

    requires
        reader.obeys_prophetic_iter_laws(),
        reader.decrease() is Some,
    ensures
        final(writer)@ == old(writer)@ + transformed(mode, reader.remaining(), key@),
{
    let ghost all: Seq<u8> = reader.remaining();
    let ghost table: Seq<u64> = key@;
    let ghost whole: Seq<u8> = transformed(mode, all, table);
    let ghost start: Seq<u8> = writer@;
    let ghost mut k: int = 0;
    let mut pipeline = Pipeline::new(reader, key, mode);
    assert(all.skip(0) =~= all);
    assert(start + whole.take(0) =~= start);
    loop
        invariant
            pipeline.wf(),
            pipeline.table() == table,
            pipeline.mode() == mode,
            0 <= k,
            pipeline.phase() == k % 64,
            whole == transformed(mode, all, table),
            8 * k <= whole.len(),
            writer@ == start + whole.take(8 * k),
            pipeline.source() matches Some(it) ==> {
                &&& it.obeys_prophetic_iter_laws()
                &&& it.decrease() is Some
                &&& 8 * k <= all.len()
                &&& it.remaining() == all.skip(8 * k)
            },
            pipeline.source() is None ==> 8 * k == whole.len(),
        ensures
            writer@ == start + whole,
        decreases
            (if pipeline.source() is Some {
                pipeline.source()->0.decrease()->0 + 1
            } else {
                0
            }),
    {
        match pipeline.next() {
            Some(block) => {
                write_block(writer, &block);
                assert({
                    &&& 8 * (k + 1) <= whole.len()
                    &&& whole.take(8 * k) + block@ == whole.take(8 * (k + 1))
                    &&& all.len() >= 8 * (k + 1) ==> all.skip(8 * k).skip(8) == all.skip(
                        8 * (k + 1),
                    )
                    &&& all.len() < 8 * (k + 1) ==> 8 * (k + 1) == whole.len()
                }) by {
                    lemma_transformed_step(mode, all, table, k, (k % 64) as nat, block@);
                }
                assert(writer@ =~= start + whole.take(8 * (k + 1)));
                proof {
                    k = k + 1;
                }
            },
            None => {
                assert(whole.take(8 * k) =~= whole);
                break ;
            },
        }
    }
}

/// Decrypts all of `reader` under `key` and appends the plain bytes to
/// `writer`.
pub fn decrypt<R>(reader: R, writer: &mut Vec<u8>, key: &KeyTable) where R: Iterator<Item = u8>
    requires
        reader.obeys_prophetic_iter_laws(),
        reader.decrease() is Some,
    ensures
        final(writer)@ == old(writer)@ + transformed(Mode::Decrypt, reader.remaining(), key@),
{
    transform(Mode::Decrypt, reader, writer, key)
}

/// Encrypts all of `reader` under `key` and appends the cipher bytes to
/// `writer`.
pub fn encrypt<R>(reader: R, writer: &mut Vec<u8>, key: &KeyTable) where R: Iterator<Item = u8>
    requires
        reader.obeys_prophetic_iter_laws(),
        reader.decrease() is Some,
    ensures
        final(writer)@ == old(writer)@ + transformed(Mode::Encrypt, reader.remaining(), key@),
{
    transform(Mode::Encrypt, reader, writer, key)
}

/// The other direction.
pub open spec fn opposite(mode: Mode) -> Mode {
    match mode {
        Mode::Decrypt => Mode::Encrypt,
        Mode::Encrypt => Mode::Decrypt,
    }
}

/// Over 64 consecutive positions a transform takes the 64 words of the key
/// table once each, in table order, and from there on everything repeats:
/// keystream word and rotation amount at position `i + 64` are those at
/// position `i`, so a chunk is transformed alike at both.
pub proof fn lemma_transform_period(mode: Mode, bytes: Seq<u8>, i: nat, table: Seq<u64>)
    ensures
        i < 64 ==> transformed_chunk(mode, bytes, i, table) == le_bytes(
            transformed_word(mode, le_word(bytes), i, table[i as int]),
        ),
        transformed_chunk(mode, bytes, i + 64, table) == transformed_chunk(mode, bytes, i, table),
{
}

/// The output is as long as the input with its padding: the input's length
/// rounded up to the next multiple of 8. Nothing is cut off, and an input
/// whose length is a multiple of 8 keeps its length.
pub proof fn lemma_transformed_len(mode: Mode, input: Seq<u8>, table: Seq<u64>)
    ensures
        transformed(mode, input, table).len() == 8 * chunk_count(input.len(), 8),
        transformed(mode, input, table).len() == padded(input, FILLER, 8).len(),
        transformed(mode, input, table).len() % 8 == 0,
        input.len() <= transformed(mode, input, table).len() < input.len() + 8,
        input.len() % 8 == 0 ==> transformed(mode, input, table).len() == input.len(),
{
}

/// An empty input gives an empty output, in either direction.
pub proof fn lemma_transformed_empty(mode: Mode, table: Seq<u64>)
    ensures
        transformed(mode, Seq::<u8>::empty(), table) == Seq::<u8>::empty(),
{
    assert(transformed(mode, Seq::<u8>::empty(), table) =~= Seq::<u8>::empty());
}

/// A transform followed by the opposite one, under the same key table,
/// gives the input back with its zero padding: the padding that the first
/// pass added stays.
pub proof fn lemma_opposite_transform_restores(mode: Mode, input: Seq<u8>, table: Seq<u64>)
    ensures
        transformed(opposite(mode), transformed(mode, input, table), table) == padded(
            input,
            FILLER,
            8,
        ),
{
    let first = transformed(mode, input, table);
    let second = transformed(opposite(mode), first, table);
    let target = padded(input, FILLER, 8);
    assert(second.len() == target.len());
    assert forall|p: int| 0 <= p < second.len() implies second[p] == target[p] by {
        let k: int = p / 8;
        let j: int = p % 8;
        let i: nat = k as nat;
        let bytes = chunk(input, FILLER, 8, k);
        let word: u64 = le_word(bytes);
        let key_word: u64 = keystream(table, i);
        let sent: u64 = transformed_word(mode, word, i, key_word);
        assert(chunk(first, FILLER, 8, k) =~= le_bytes(sent)) by {
            assert forall|t: int| 0 <= t < 8 implies chunk(first, FILLER, 8, k)[t] == le_bytes(
                sent,
            )[t] by {
                assert((k * 8 + t) / 8 == k);
                assert((k * 8 + t) % 8 == t);
            }
        }
        lemma_word_of_its_bytes(sent);
        lemma_word_transforms_cancel(word, i, key_word);
        lemma_bytes_of_their_word(bytes);
    }
    assert(second =~= target);
}

/// Decrypting what was encrypted gives the plain bytes followed by zero
/// bytes up to the next multiple of 8; the padding is not stripped.
pub proof fn lemma_decrypt_inverts_encrypt(input: Seq<u8>, table: Seq<u64>)
    ensures
        transformed(Mode::Encrypt, input, table).len() == 8 * chunk_count(input.len(), 8),
        transformed(Mode::Decrypt, transformed(Mode::Encrypt, input, table), table) == padded(
            input,
            FILLER,
            8,
        ),
        padded(input, FILLER, 8).take(input.len() as int) == input,
        forall|p: int| input.len() <= p < padded(input, FILLER, 8).len() ==> padded(input, FILLER, 8)[p] == 0,
{
    lemma_opposite_transform_restores(Mode::Encrypt, input, table);
    assert(padded(input, FILLER, 8).take(input.len() as int) =~= input);
}

/// Encrypting what was decrypted gives the cipher bytes back, with zero
/// bytes up to the next multiple of 8.
pub proof fn lemma_encrypt_inverts_decrypt(input: Seq<u8>, table: Seq<u64>)
    ensures
        transformed(Mode::Encrypt, transformed(Mode::Decrypt, input, table), table) == padded(
            input,
            FILLER,
            8,
        ),
{
    lemma_opposite_transform_restores(Mode::Decrypt, input, table);
}

/// Round trip: on an input whose length is a multiple of 8, decrypting
/// what was encrypted gives exactly the input, and so does encrypting what
/// was decrypted, under any key table.
pub proof fn lemma_round_trip(input: Seq<u8>, table: Seq<u64>)
    requires
        input.len() % 8 == 0,
    ensures
        transformed(Mode::Decrypt, transformed(Mode::Encrypt, input, table), table) == input,
        transformed(Mode::Encrypt, transformed(Mode::Decrypt, input, table), table) == input,
{
    lemma_opposite_transform_restores(Mode::Encrypt, input, table);
    lemma_opposite_transform_restores(Mode::Decrypt, input, table);
    assert(padded(input, FILLER, 8) =~= input);
}

} // verus!
