//! Decompression: the executable decoder, proved equal to
//! [`decoded`](crate::format::decoded) on every input.

use vstd::prelude::*;
use vstd::slice::slice_subrange;
use crate::error::CorruptInput;
use crate::format::{
    copy_back, declared_len, decode_stream, decoded, extension, first_sequence, length_field, Step,
    MIN_MATCH,
};
use crate::lemmas::{lemma_copy_back_len, lemma_sequence_bounds};

verus! {

/// Lengths are tracked exactly up to this bound. No block declares more
/// than `u32::MAX` bytes, so every larger length is reported as this one.
const LENGTH_CAP: u64 = 0x1_0000_0000;

/// `n`, or `LENGTH_CAP` when `n` is larger.
spec fn capped(n: nat) -> nat {
    if n <= LENGTH_CAP {
        n
    } else {
        LENGTH_CAP as nat
    }
}

/// Reads the length field whose nibble is `nibble` and whose continuation
/// bytes start at `pos`. Returns the capped length and the position after
/// the field.
fn read_length(input: &[u8], pos: usize, nibble: u8) -> (r: Option<(u64, usize)>)
    requires
        pos <= input@.len(),
        nibble <= 15,
    ensures
        match length_field(nibble as nat, input@.skip(pos as int)) {
            None => r is None,
            Some((len, ext)) => r == Some((capped(len) as u64, (pos + ext) as usize)) && pos + ext
                <= input@.len(),
        },
{
    if nibble < 15 {
        return Some((nibble as u64, pos));
    }
    let n: usize = input.len();
    let mut sum: u64 = 15;
    let mut i: usize = pos;
    while i < n
        invariant
            pos <= i <= n,
            n == input@.len(),
            nibble == 15,
            sum == capped((15 + 255 * (i - pos)) as nat),
            match extension(input@.skip(i as int)) {
                None => extension(input@.skip(pos as int)) is None,
                Some((s, c)) => extension(input@.skip(pos as int)) == Some(
                    ((s + 255 * (i - pos)) as nat, (c + (i - pos)) as nat),
                ),
            },
        decreases n - i,
    {
        let b: u8 = input[i];
        proof {
            assert(input@.skip(i as int)[0] == b);
            assert(input@.skip(i as int).skip(1) =~= input@.skip(i + 1));
        }
        if b != 255 {
            let total: u64 = if sum + (b as u64) > LENGTH_CAP {
                LENGTH_CAP
            } else {
                sum + (b as u64)
            };
            return Some((total, i + 1));
        }
        sum = if sum + 255 > LENGTH_CAP {
            LENGTH_CAP
        } else {
            sum + 255
        };
        i = i + 1;
    }
    None
}

/// Appends `input[start..end]` to `out`.
pub(crate) fn copy_literals(out: &mut Vec<u8>, input: &[u8], start: usize, end: usize)
    requires
        start <= end <= input@.len(),
    ensures
        final(out)@ == old(out)@ + input@.subrange(start as int, end as int),
{
    out.extend_from_slice(slice_subrange(input, start, end));
    assert(out@ =~= old(out)@ + input@.subrange(start as int, end as int));
}

/// Appends `n` bytes to `out`, each a copy of the byte `offset` places
/// before it.
fn copy_match(out: &mut Vec<u8>, offset: usize, n: usize)
    requires
        1 <= offset <= old(out)@.len(),
    ensures
        final(out)@ == copy_back(old(out)@, offset as nat, n as nat),
{
    let mut i: usize = 0;
    while i < n
        invariant
            i <= n,
            1 <= offset <= out@.len(),
            copy_back(out@, offset as nat, (n - i) as nat) == copy_back(
                old(out)@,
                offset as nat,
                n as nat,
            ),
        decreases n - i,
    {
        let b: u8 = out[out.len() - offset];
        out.push(b);
        i = i + 1;
    }
}

/// The sequence found at a position of the input, with its literals given
/// by their place in the input.
enum Parsed {
    Fail(CorruptInput),
    Last { start: usize, end: usize },
    Copy { start: usize, end: usize, offset: usize, match_len: usize, next: usize },
}

impl Parsed {
    /// The step that this parse result stands for, read at `pos` in `input`.
    spec fn step(self, input: Seq<u8>, pos: int) -> Step {
        match self {
            Parsed::Fail(reason) => Step::Fail(reason),
            Parsed::Last { start, end } => Step::Last {
                literals: input.subrange(start as int, end as int),
            },
            Parsed::Copy { start, end, offset, match_len, next } => Step::Copy {
                literals: input.subrange(start as int, end as int),
                offset: offset as nat,
                match_len: match_len as nat,
                consumed: (next - pos) as nat,
            },
        }
    }

    /// The positions lie in the input, in order, after `pos`.
    spec fn in_bounds(self, input: Seq<u8>, pos: int) -> bool {
        match self {
            Parsed::Fail(_) => true,
            Parsed::Last { start, end } => pos < start <= end <= input.len(),
            Parsed::Copy { start, end, offset, match_len, next } => pos < start <= end < next
                <= input.len(),
        }
    }
}

/// Parses the sequence that starts at `pos`.
fn read_sequence(input: &[u8], pos: usize, produced: u64, expected: u64) -> (parsed: Parsed)
    requires
        pos < input@.len(),
        produced <= expected <= u32::MAX,
    ensures
        parsed.step(input@, pos as int) == first_sequence(
            input@.skip(pos as int),
            produced as nat,
            expected as nat,
        ),
        parsed.in_bounds(input@, pos as int),
{
    let n: usize = input.len();
    let ghost s = input@.skip(pos as int);
    let token: u8 = input[pos];
    proof {
        reveal(first_sequence);
        assert(s[0] == token);
        assert(s.skip(1) =~= input@.skip(pos + 1));
    }
    let (lit_len, start) = match read_length(input, pos + 1, token / 16) {
        None => {
            return Parsed::Fail(CorruptInput::Truncated);
        },
        Some(field) => field,
    };
    if produced + lit_len > expected {
        return Parsed::Fail(CorruptInput::LengthMismatch);
    }
    if lit_len > (n - start) as u64 {
        return Parsed::Fail(CorruptInput::Truncated);
    }
    let end: usize = start + lit_len as usize;
    proof {
        assert(s.subrange(start - pos, end - pos) =~= input@.subrange(start as int, end as int));
    }
    if end == n {
        return Parsed::Last { start, end };
    }
    if n - end < 2 {
        return Parsed::Fail(CorruptInput::Truncated);
    }
    let offset: usize = (input[end] as usize) + 256 * (input[end + 1] as usize);
    if offset == 0 {
        return Parsed::Fail(CorruptInput::ZeroOffset);
    }
    if offset as u64 > produced + lit_len {
        return Parsed::Fail(CorruptInput::OffsetOutOfRange);
    }
    proof {
        assert(s[end - pos] == input@[end as int]);
        assert(s[end - pos + 1] == input@[end + 1]);
        assert(s.skip(end - pos + 2) =~= input@.skip(end + 2));
    }
    let (extra, next) = match read_length(input, end + 2, token % 16) {
        None => {
            return Parsed::Fail(CorruptInput::Truncated);
        },
        Some(field) => field,
    };
    if produced + lit_len + extra + MIN_MATCH as u64 > expected {
        return Parsed::Fail(CorruptInput::LengthMismatch);
    }
    Parsed::Copy { start, end, offset, match_len: extra as usize + MIN_MATCH, next }
}

/// Reconstructs the bytes that an encoded block stands for.
///
/// Returns exactly what [`decoded`] gives for the block: the bytes it
/// stands for, or the first reason, in stream order, for which the block is
/// malformed.
pub fn decompress(input: &[u8]) -> (result: Result<Vec<u8>, CorruptInput>)
    ensures
        match result {
            Ok(bytes) => decoded(input@) == Ok::<Seq<u8>, CorruptInput>(bytes@),
            Err(reason) => decoded(input@) == Err::<Seq<u8>, CorruptInput>(reason),
        },
{
    let n: usize = input.len();
    if n < 4 {
        return Err(CorruptInput::Truncated);
    }
    let expected: u64 = (input[0] as u64) + 0x100 * (input[1] as u64) + 0x1_0000 * (
    input[2] as u64) + 0x100_0000 * (input[3] as u64);
    let mut out: Vec<u8> = Vec::new();
    // The declared length is only a claim until the stream has been read:
    // where the allocator refuses it, the output grows as bytes arrive.
    let _ = out.try_reserve(expected as usize);
    let mut pos: usize = 4;
    while pos < n
        invariant
            4 <= pos <= n,
            n == input@.len(),
            expected == declared_len(input@),
            expected <= u32::MAX,
            out@.len() <= expected,
            decode_stream(input@.skip(pos as int), out@, expected as nat) == decoded(input@),
        decreases n - pos,
    {
        proof {
            lemma_sequence_bounds(input@.skip(pos as int), out@.len(), expected as nat);
        }
        match read_sequence(input, pos, out.len() as u64, expected) {
            Parsed::Fail(reason) => {
                return Err(reason);
            },
            Parsed::Last { start, end } => {
                copy_literals(&mut out, input, start, end);
                if out.len() as u64 == expected {
                    return Ok(out);
                }
                return Err(CorruptInput::LengthMismatch);
            },
            Parsed::Copy { start, end, offset, match_len, next } => {
                copy_literals(&mut out, input, start, end);
                proof {
                    lemma_copy_back_len(out@, offset as nat, match_len as nat);
                    assert(input@.skip(pos as int).skip(next - pos) =~= input@.skip(next as int));
                }
                copy_match(&mut out, offset, match_len);
                pos = next;
            },
        }
    }
    if out.len() as u64 == expected {
        Ok(out)
    } else {
        Err(CorruptInput::LengthMismatch)
    }
}

} // verus!
