//! The block format as a mathematical model.
//!
//! Everything here is specification: [`decoded`] says what an encoded block
//! means, and [`sequence_bytes`] and [`final_bytes`] say how one sequence is
//! written down.

use vstd::prelude::*;
use crate::error::CorruptInput;
use crate::lemmas::lemma_sequence_bounds;

verus! {

/// Shortest back-reference the format can express.
pub const MIN_MATCH: usize = 4;

/// Largest distance a back-reference can span.
pub const MAX_OFFSET: usize = 65535;

/// The four little-endian bytes of `n` modulo 2^32.
pub open spec fn le32(n: nat) -> Seq<u8> {
    seq![
        (n % 256) as u8,
        ((n / 0x100) % 256) as u8,
        ((n / 0x1_0000) % 256) as u8,
        ((n / 0x100_0000) % 256) as u8,
    ]
}

/// The length that the first four bytes of a block declare.
pub open spec fn declared_len(block: Seq<u8>) -> nat
    recommends
        block.len() >= 4,
{
    (block[0] as nat) + 0x100 * (block[1] as nat) + 0x1_0000 * (block[2] as nat) + 0x100_0000 * (
    block[3] as nat)
}

/// Reads the continuation bytes of a length at the front of `s`: every byte
/// is added, and the first byte below 255 ends the length. Gives the sum and
/// the number of bytes read, or `None` when `s` ends first.
pub open spec fn extension(s: Seq<u8>) -> Option<(nat, nat)>
    decreases s.len(),
{
    if s.len() == 0 {
        None
    } else if s[0] == 255 {
        match extension(s.skip(1)) {
            Some((sum, count)) => Some((sum + 255, count + 1)),
            None => None,
        }
    } else {
        Some((s[0] as nat, 1nat))
    }
}

/// A length whose token nibble is `nibble` and whose continuation bytes, if
/// the nibble is 15, stand at the front of `s`. Gives the length and the
/// number of continuation bytes.
pub open spec fn length_field(nibble: nat, s: Seq<u8>) -> Option<(nat, nat)> {
    if nibble < 15 {
        Some((nibble, 0nat))
    } else {
        match extension(s) {
            Some((sum, count)) => Some((sum + 15, count)),
            None => None,
        }
    }
}

/// `out` extended by `n` bytes, each a copy of the byte `offset` places
/// before it. With `offset < n` the copy reads bytes it has just written.
pub open spec fn copy_back(out: Seq<u8>, offset: nat, n: nat) -> Seq<u8>
    recommends
        1 <= offset <= out.len(),
    decreases n,
{
    if n == 0 {
        out
    } else {
        copy_back(out.push(out[out.len() - offset]), offset, (n - 1) as nat)
    }
}

/// The part of a length that fits the token: the length itself below 15,
/// else 15.
pub open spec fn nibble(len: nat) -> nat {
    if len < 15 {
        len
    } else {
        15
    }
}

/// The continuation bytes that add up to `rest`: a 255 for every full 255,
/// then one byte below 255.
pub open spec fn extension_bytes(rest: nat) -> Seq<u8>
    decreases rest,
{
    if rest >= 255 {
        seq![255u8] + extension_bytes((rest - 255) as nat)
    } else {
        seq![rest as u8]
    }
}

/// The bytes that carry what of `len` does not fit the token's nibble.
pub open spec fn length_bytes(len: nat) -> Seq<u8> {
    if len < 15 {
        Seq::empty()
    } else {
        extension_bytes((len - 15) as nat)
    }
}

/// A sequence as it is written: the token, the literal length, the
/// literals, the offset in two little-endian bytes, the match length.
pub open spec fn sequence_bytes(literals: Seq<u8>, offset: nat, match_len: nat) -> Seq<u8>
    recommends
        1 <= offset <= MAX_OFFSET,
        match_len >= MIN_MATCH,
{
    let extra = (match_len - MIN_MATCH) as nat;
    seq![(16 * nibble(literals.len()) + nibble(extra)) as u8] + length_bytes(literals.len())
        + literals + seq![(offset % 256) as u8, (offset / 256) as u8] + length_bytes(extra)
}

/// The literal run that ends a stream, as it is written: the token, the
/// literal length, the literals.
pub open spec fn final_bytes(literals: Seq<u8>) -> Seq<u8> {
    seq![(16 * nibble(literals.len())) as u8] + length_bytes(literals.len()) + literals
}

/// The literals of the run that closes a stream, where there is one.
pub open spec fn closing_literals(last: Option<Seq<u8>>) -> Seq<u8> {
    match last {
        Some(literals) => literals,
        None => Seq::empty(),
    }
}

/// The run that closes a stream, as it is written, where there is one.
pub open spec fn closing_bytes(last: Option<Seq<u8>>) -> Seq<u8> {
    match last {
        Some(literals) => final_bytes(literals),
        None => Seq::empty(),
    }
}

/// One sequence of a stream: a literal run and the back-reference behind it.
pub struct Sequence {
    pub literals: Seq<u8>,
    pub offset: nat,
    pub match_len: nat,
}

/// The sequences as they are written, one after another.
pub open spec fn stream_bytes(sequences: Seq<Sequence>) -> Seq<u8>
    decreases sequences.len(),
{
    if sequences.len() == 0 {
        Seq::empty()
    } else {
        let first = sequences[0];
        sequence_bytes(first.literals, first.offset, first.match_len) + stream_bytes(
            sequences.skip(1),
        )
    }
}

/// The output after the sequences have been carried out on `out`.
pub open spec fn replay(sequences: Seq<Sequence>, out: Seq<u8>) -> Seq<u8>
    decreases sequences.len(),
{
    if sequences.len() == 0 {
        out
    } else {
        let first = sequences[0];
        replay(
            sequences.skip(1),
            copy_back(out + first.literals, first.offset, first.match_len),
        )
    }
}

/// Every back-reference can be written and reaches into the output, when
/// `produced` bytes precede the sequences.
pub open spec fn replayable(sequences: Seq<Sequence>, produced: nat) -> bool
    decreases sequences.len(),
{
    sequences.len() == 0 || {
        let first = sequences[0];
        &&& 1 <= first.offset <= MAX_OFFSET
        &&& first.offset <= produced + first.literals.len()
        &&& first.match_len >= MIN_MATCH
        &&& replayable(sequences.skip(1), produced + first.literals.len() + first.match_len)
    }
}

/// What the sequence at the front of a stream asks the decoder to do.
pub enum Step {
    /// The sequence is malformed, or its bytes do not fit the declared length.
    Fail(CorruptInput),
    /// A literal run that ends the stream.
    Last { literals: Seq<u8> },
    /// A literal run followed by a back-reference; `consumed` counts the
    /// bytes of the stream that the sequence occupies.
    Copy { literals: Seq<u8>, offset: nat, match_len: nat, consumed: nat },
}

/// Parses the sequence at the front of the non-empty stream `s`, given that
/// `produced` bytes have been decoded so far out of `expected`.
///
/// The checks come in stream order: the literal length, room for the
/// literals in the output, the literals themselves, the offset, the match
/// length, room for the match. A sequence has a back-reference unless the
/// stream ends behind its literals.
#[verifier::opaque]
pub open spec fn first_sequence(s: Seq<u8>, produced: nat, expected: nat) -> Step
    recommends
        s.len() > 0,
{
    let token = s[0] as nat;
    match length_field(token / 16, s.skip(1)) {
        None => Step::Fail(CorruptInput::Truncated),
        Some((lit_len, lit_ext)) => {
            let lit_start = 1 + lit_ext;
            let lit_end = lit_start + lit_len;
            if produced + lit_len > expected {
                Step::Fail(CorruptInput::LengthMismatch)
            } else if lit_end > s.len() {
                Step::Fail(CorruptInput::Truncated)
            } else if lit_end == s.len() {
                Step::Last { literals: s.subrange(lit_start as int, lit_end as int) }
            } else if lit_end + 2 > s.len() {
                Step::Fail(CorruptInput::Truncated)
            } else {
                let offset = (s[lit_end as int] as nat) + 256 * (s[lit_end as int + 1] as nat);
                if offset == 0 {
                    Step::Fail(CorruptInput::ZeroOffset)
                } else if offset > produced + lit_len {
                    Step::Fail(CorruptInput::OffsetOutOfRange)
                } else {
                    match length_field(token % 16, s.skip(lit_end as int + 2)) {
                        None => Step::Fail(CorruptInput::Truncated),
                        Some((extra, match_ext)) => {
                            let match_len = extra + MIN_MATCH as nat;
                            if produced + lit_len + match_len > expected {
                                Step::Fail(CorruptInput::LengthMismatch)
                            } else {
                                Step::Copy {
                                    literals: s.subrange(lit_start as int, lit_end as int),
                                    offset,
                                    match_len,
                                    consumed: lit_end + 2 + match_ext,
                                }
                            }
                        },
                    }
                }
            }
        },
    }
}

/// The output is complete exactly when it has the declared length.
pub open spec fn finish(out: Seq<u8>, expected: nat) -> Result<Seq<u8>, CorruptInput> {
    if out.len() == expected {
        Ok(out)
    } else {
        Err(CorruptInput::LengthMismatch)
    }
}

/// Decodes the sequences of `s` one after another onto `out`, until the
/// stream is exhausted.
pub open spec fn decode_stream(s: Seq<u8>, out: Seq<u8>, expected: nat) -> Result<
    Seq<u8>,
    CorruptInput,
>
    decreases s.len(),
    via decode_stream_decreases
{
    if s.len() == 0 {
        finish(out, expected)
    } else {
        match first_sequence(s, out.len(), expected) {
            Step::Fail(reason) => Err(reason),
            Step::Last { literals } => finish(out + literals, expected),
            Step::Copy { literals, offset, match_len, consumed } => decode_stream(
                s.skip(consumed as int),
                copy_back(out + literals, offset, match_len),
                expected,
            ),
        }
    }
}

#[via_fn]
proof fn decode_stream_decreases(s: Seq<u8>, out: Seq<u8>, expected: nat) {
    if s.len() > 0 {
        lemma_sequence_bounds(s, out.len(), expected);
    }
}

/// Whether the stream closes with a bare token: a last sequence that
/// carries neither literals nor a back-reference.
pub open spec fn closes_bare(s: Seq<u8>, produced: nat, expected: nat) -> bool
    decreases s.len(),
    via closes_bare_decreases
{
    s.len() > 0 && match first_sequence(s, produced, expected) {
        Step::Fail(_) => false,
        Step::Last { literals } => literals.len() == 0,
        Step::Copy { literals, offset, match_len, consumed } => closes_bare(
            s.skip(consumed as int),
            produced + literals.len() + match_len,
            expected,
        ),
    }
}

#[via_fn]
proof fn closes_bare_decreases(s: Seq<u8>, produced: nat, expected: nat) {
    if s.len() > 0 {
        lemma_sequence_bounds(s, produced, expected);
    }
}

/// Whether the block's stream closes with a bare token.
pub open spec fn block_closes_bare(block: Seq<u8>) -> bool {
    block.len() > 4 && closes_bare(block.skip(4), 0, declared_len(block))
}

/// The meaning of an encoded block: the bytes it decodes to, or the first
/// reason, in stream order, for which it is rejected.
pub open spec fn decoded(block: Seq<u8>) -> Result<Seq<u8>, CorruptInput> {
    if block.len() < 4 {
        Err(CorruptInput::Truncated)
    } else {
        decode_stream(block.skip(4), Seq::empty(), declared_len(block))
    }
}

} // verus!
