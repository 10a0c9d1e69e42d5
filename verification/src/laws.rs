//! What holds of the codec as a whole.

use vstd::prelude::*;
use crate::error::CorruptInput;
use crate::format::{
    block_closes_bare, closing_bytes, closing_literals, declared_len, decoded, final_bytes, le32,
    replay, replayable, sequence_bytes, stream_bytes, Sequence, MAX_OFFSET, MIN_MATCH,
};
use crate::lemmas::{
    lemma_bare_token_dropped, lemma_declared_len, lemma_decode_final, lemma_decode_stream_bytes,
    lemma_sequence_round_trip, lemma_stream_truncation,
};
use crate::scan::{
    compressed, empty_table, lemma_scan_closes_with_literals, lemma_scan_keeps_last_literals,
    lemma_scan_len, lemma_scan_round_trip, scan_from, LAST_LITERALS,
};

verus! {

/// Round trip: every input that the prefix can declare, of at most
/// `u32::MAX` bytes, is what its compressed block decodes to.
pub proof fn round_trip(x: Seq<u8>)
    requires
        x.len() <= u32::MAX,
    ensures
        decoded(compressed(x)) == Ok::<Seq<u8>, CorruptInput>(x),
{
    let body = scan_from(x, 0, 0, empty_table());
    let start = x.subrange(0, 0);
    lemma_declared_len(x.len(), body);
    lemma_scan_round_trip(x, 0, 0, empty_table());
    assert(start =~= Seq::<u8>::empty());
}

/// Length prefix: the first four bytes of a compressed block, read as a
/// little-endian number, are the length of the input modulo 2^32, so the
/// length itself for every input of at most `u32::MAX` bytes.
pub proof fn prefix_declares_length(x: Seq<u8>)
    ensures
        compressed(x).len() >= 4,
        compressed(x).subrange(0, 4) == le32(x.len()),
        declared_len(compressed(x)) == x.len() % 0x1_0000_0000,
        x.len() <= u32::MAX ==> declared_len(compressed(x)) == x.len(),
{
    lemma_declared_len(x.len(), scan_from(x, 0, 0, empty_table()));
}

/// Corruption detection: a block that decodes, with its last byte
/// dropped, is rejected as truncated, unless it closes with a bare token.
pub proof fn truncation_detected(block: Seq<u8>)
    requires
        decoded(block) is Ok,
        !block_closes_bare(block),
    ensures
        decoded(block.drop_last()) == Err::<Seq<u8>, CorruptInput>(CorruptInput::Truncated),
{
    let cut = block.drop_last();
    if block.len() > 4 {
        assert(cut.skip(4) =~= block.skip(4).drop_last());
        assert(declared_len(cut) == declared_len(block));
        lemma_stream_truncation(block.skip(4), Seq::empty(), declared_len(block));
    }
}

/// The last five bytes of an input are never part of a match: a compressed
/// block ends with them, as literals.
pub proof fn last_bytes_stay_literals(x: Seq<u8>)
    requires
        x.len() >= LAST_LITERALS,
    ensures
        compressed(x).len() > 4 + LAST_LITERALS,
        compressed(x).skip(compressed(x).len() - LAST_LITERALS) == x.skip(
            x.len() - LAST_LITERALS,
        ),
{
    let body = scan_from(x, 0, 0, empty_table());
    lemma_scan_keeps_last_literals(x, 0, 0, empty_table());
    assert(compressed(x).skip(compressed(x).len() - LAST_LITERALS) =~= body.skip(
        body.len() - LAST_LITERALS,
    ));
}

/// An input of fewer than nine bytes, too short to hold a match before
/// the last literals, is written as one run of literals, and the empty
/// input as nothing.
pub proof fn short_inputs_are_literals(x: Seq<u8>)
    requires
        x.len() < MIN_MATCH + LAST_LITERALS,
    ensures
        compressed(x) == le32(x.len()) + if x.len() > 0 {
            final_bytes(x)
        } else {
            Seq::empty()
        },
{
    assert(x.subrange(0, x.len() as int) =~= x);
}

/// Compression may lengthen an input that holds no repeats, but only by
/// one byte in 255, and six: the prefix, the token and the first byte of a
/// long length.
pub proof fn expansion_is_bounded(x: Seq<u8>)
    ensures
        compressed(x).len() <= x.len() + x.len() / 255 + 6,
{
    lemma_scan_len(x, 0, 0, empty_table());
}

/// Corruption detection for what the compressor writes: the block of any
/// input of at most `u32::MAX` bytes, with its last byte dropped, is
/// rejected as truncated.
pub proof fn compressed_truncation_detected(x: Seq<u8>)
    requires
        x.len() <= u32::MAX,
    ensures
        decoded(compressed(x).drop_last()) == Err::<Seq<u8>, CorruptInput>(
            CorruptInput::Truncated,
        ),
{
    let body = scan_from(x, 0, 0, empty_table());
    round_trip(x);
    lemma_declared_len(x.len(), body);
    lemma_scan_closes_with_literals(x, 0, 0, empty_table());
    truncation_detected(compressed(x));
}

/// A bare token at the end of a block stands for nothing: the block
/// decodes to the same bytes without it. These are the blocks that lose
/// their last byte unnoticed.
pub proof fn bare_token_is_redundant(block: Seq<u8>)
    requires
        decoded(block) is Ok,
        block_closes_bare(block),
    ensures
        decoded(block.drop_last()) == decoded(block),
{
    let cut = block.drop_last();
    assert(cut.skip(4) =~= block.skip(4).drop_last());
    assert(declared_len(cut) == declared_len(block));
    lemma_bare_token_dropped(block.skip(4), Seq::empty(), declared_len(block));
}

/// Offset bound: a sequence whose back-reference has offset zero, or
/// reaches before the first byte of the output, makes the block malformed,
/// whatever well-formed sequences precede it and whatever bytes follow it.
/// The reason is the offset, unless the bytes before it already exceed the
/// declared length.
pub proof fn bad_offset_rejected(
    prefix: Seq<u8>,
    head: Seq<Sequence>,
    literals: Seq<u8>,
    offset: nat,
    match_len: nat,
    tail: Seq<u8>,
)
    requires
        prefix.len() == 4,
        replayable(head, 0),
        offset <= MAX_OFFSET,
        match_len >= MIN_MATCH,
        offset == 0 || offset > replay(head, Seq::empty()).len() + literals.len(),
    ensures
        decoded(prefix + stream_bytes(head) + sequence_bytes(literals, offset, match_len) + tail)
            == Err::<Seq<u8>, CorruptInput>(
            if replay(head, Seq::empty()).len() + literals.len() > declared_len(prefix) {
                CorruptInput::LengthMismatch
            } else if offset == 0 {
                CorruptInput::ZeroOffset
            } else {
                CorruptInput::OffsetOutOfRange
            },
        ),
{
    let written = sequence_bytes(literals, offset, match_len);
    let block = prefix + stream_bytes(head) + written + tail;
    let expected = declared_len(prefix);
    let out = replay(head, Seq::empty());
    assert(block.skip(4) =~= stream_bytes(head) + (written + tail));
    assert(declared_len(block) == expected);
    lemma_decode_stream_bytes(head, written + tail, Seq::empty(), expected);
    lemma_sequence_round_trip(literals, offset, match_len, tail, out.len(), expected);
}

/// Every well-formed block is accepted: where the prefix declares the
/// right length and the stream is written from sequences that can be
/// carried out, closed by a final run of literals or by nothing, the block
/// decodes to what the sequences and the literals produce.
pub proof fn well_formed_block_decodes(head: Seq<Sequence>, last: Option<Seq<u8>>)
    requires
        replayable(head, 0),
        replay(head, Seq::empty()).len() + closing_literals(last).len() <= u32::MAX,
    ensures
        decoded(
            le32(replay(head, Seq::empty()).len() + closing_literals(last).len()) + stream_bytes(
                head,
            ) + closing_bytes(last),
        ) == Ok::<Seq<u8>, CorruptInput>(replay(head, Seq::empty()) + closing_literals(last)),
{
    let out = replay(head, Seq::empty());
    let literals = closing_literals(last);
    let expected = out.len() + literals.len();
    let close = closing_bytes(last);
    let block = le32(expected) + stream_bytes(head) + close;
    assert(block =~= le32(expected) + (stream_bytes(head) + close));
    lemma_declared_len(expected, stream_bytes(head) + close);
    lemma_decode_stream_bytes(head, close, Seq::empty(), expected);
    if last is Some {
        lemma_decode_final(literals, out, expected);
    } else {
        assert(out + literals =~= out);
    }
}

} // verus!
