//! Compression: the executable scan, proved to write exactly the block
//! that [`compressed`](crate::scan::compressed) names.

use vstd::prelude::*;
use crate::decode::copy_literals;
use crate::error::CorruptInput;
use crate::format::{
    declared_len, decoded, extension_bytes, final_bytes, le32, length_bytes, nibble,
    sequence_bytes, MAX_OFFSET, MIN_MATCH,
};
use crate::laws::{expansion_is_bounded, prefix_declares_length, round_trip};
use crate::scan::{
    bucket, compressed, empty_table, lemma_run_len, match_at, run_len, scan_from, tail_bytes,
    word_at, LAST_LITERALS, TABLE_SIZE,
};

verus! {

/// The token nibble for a length.
fn nibble_of(len: usize) -> (r: u8)
    ensures
        r == nibble(len as nat),
{
    if len < 15 {
        len as u8
    } else {
        15
    }
}

/// Appends the continuation bytes of a length, if it has any.
fn push_length(out: &mut Vec<u8>, len: usize)
    ensures
        final(out)@ == old(out)@ + length_bytes(len as nat),
{
    if len < 15 {
        assert(out@ =~= old(out)@ + length_bytes(len as nat));
        return ;
    }
    let mut rest: usize = len - 15;
    while rest >= 255
        invariant
            out@ + extension_bytes(rest as nat) == old(out)@ + length_bytes(len as nat),
        decreases rest,
    {
        let ghost before = out@;
        out.push(255);
        rest = rest - 255;
        assert(out@ + extension_bytes(rest as nat) =~= before + (seq![255u8] + extension_bytes(
            rest as nat,
        )));
    }
    let ghost before = out@;
    out.push(rest as u8);
    assert(out@ =~= before + extension_bytes(rest as nat));
}

/// Appends the sequence whose literals are `input[anchor..pos]` and whose
/// match has the given offset and length.
fn push_sequence(
    out: &mut Vec<u8>,
    input: &[u8],
    anchor: usize,
    pos: usize,
    offset: usize,
    match_len: usize,
)
    requires
        anchor <= pos <= input@.len(),
        1 <= offset <= MAX_OFFSET,
        match_len >= MIN_MATCH,
    ensures
        final(out)@ == old(out)@ + sequence_bytes(
            input@.subrange(anchor as int, pos as int),
            offset as nat,
            match_len as nat,
        ),
{
    let lit_len: usize = pos - anchor;
    let extra: usize = match_len - MIN_MATCH;
    let token: u8 = 16 * nibble_of(lit_len) + nibble_of(extra);
    out.push(token);
    push_length(out, lit_len);
    copy_literals(out, input, anchor, pos);
    out.push((offset % 256) as u8);
    out.push((offset / 256) as u8);
    push_length(out, extra);
    assert(out@ =~= old(out)@ + sequence_bytes(
        input@.subrange(anchor as int, pos as int),
        offset as nat,
        match_len as nat,
    ));
}

/// Appends the final literal run `input[anchor..]`, or nothing where no
/// byte is left.
fn push_tail(out: &mut Vec<u8>, input: &[u8], anchor: usize)
    requires
        anchor <= input@.len(),
    ensures
        final(out)@ == old(out)@ + tail_bytes(input@, anchor as int),
{
    let n: usize = input.len();
    if anchor < n {
        let lit_len: usize = n - anchor;
        out.push(16 * nibble_of(lit_len));
        push_length(out, lit_len);
        copy_literals(out, input, anchor, n);
        assert(out@ =~= old(out)@ + final_bytes(input@.subrange(anchor as int, n as int)));
    } else {
        assert(out@ =~= old(out)@ + tail_bytes(input@, anchor as int));
    }
}

/// The table entry for the four bytes at `pos`.
fn slot_at(input: &[u8], pos: usize) -> (slot: usize)
    requires
        pos + 4 <= input@.len(),
    ensures
        slot == bucket(word_at(input@, pos as int)),
        slot < TABLE_SIZE,
{
    let word: u64 = (input[pos] as u64) + 0x100 * (input[pos + 1] as u64) + 0x1_0000 * (input[pos
        + 2] as u64) + 0x100_0000 * (input[pos + 3] as u64);
    (((word * 2654435761) % 0x1_0000_0000) / 0x1_0000) as usize
}

/// Counts how many bytes from `pos` on, before `limit`, repeat the bytes
/// from `cand` on.
fn count_run(input: &[u8], cand: usize, pos: usize, limit: usize) -> (len: usize)
    requires
        cand < pos,
        limit <= input@.len(),
    ensures
        len == run_len(input@, cand as int, pos as int, limit as int),
{
    let mut len: usize = 0;
    while pos + len < limit && input[cand + len] == input[pos + len]
        invariant
            cand < pos,
            limit <= input@.len(),
            pos + len <= limit || len == 0,
            run_len(input@, cand as int, pos as int, limit as int) == len + run_len(
                input@,
                cand + len,
                pos + len,
                limit as int,
            ),
        decreases limit - pos - len,
    {
        len = len + 1;
    }
    len
}

/// Scans an input of at least nine bytes for matches and appends the
/// sequences found. Returns the position from which the bytes are still to
/// be written as the final literals.
fn push_matches(out: &mut Vec<u8>, input: &[u8]) -> (anchor: usize)
    requires
        input@.len() >= MIN_MATCH + LAST_LITERALS,
    ensures
        anchor <= input@.len(),
        final(out)@ + tail_bytes(input@, anchor as int) == old(out)@ + scan_from(
            input@,
            0,
            0,
            empty_table(),
        ),
{
    let n: usize = input.len();
    let limit: usize = n - LAST_LITERALS;
    let mut table: Vec<usize> = vec![0usize; TABLE_SIZE];
    let ghost mut model: Seq<int> = empty_table();
    let mut pos: usize = 0;
    let mut anchor: usize = 0;
    while pos <= limit - MIN_MATCH
        invariant
            anchor <= pos <= n,
            n == input@.len(),
            limit == n - LAST_LITERALS,
            n >= MIN_MATCH + LAST_LITERALS,
            table@.len() == TABLE_SIZE,
            model.len() == TABLE_SIZE,
            forall|i: int| 0 <= i < TABLE_SIZE ==> table@[i] as int == #[trigger] model[i],
            out@ + scan_from(input@, pos as int, anchor as int, model) == old(out)@ + scan_from(
                input@,
                0,
                0,
                empty_table(),
            ),
        decreases n - pos,
    {
        let slot: usize = slot_at(input, pos);
        let cand: usize = table[slot];
        table[slot] = pos;
        let ghost before = out@;
        let ghost earlier = model;
        proof {
            model = model.update(slot as int, pos as int);
        }
        let len: usize = if cand < pos && pos - cand <= MAX_OFFSET {
            count_run(input, cand, pos, limit)
        } else {
            0
        };
        assert(len == match_at(input@, earlier[slot as int], pos as int));
        if len >= MIN_MATCH {
            proof {
                lemma_run_len(input@, cand as int, pos as int, limit as int);
            }
            push_sequence(out, input, anchor, pos, pos - cand, len);
            let ghost written = sequence_bytes(
                input@.subrange(anchor as int, pos as int),
                (pos - cand) as nat,
                len as nat,
            );
            pos = pos + len;
            anchor = pos;
            assert(out@ + scan_from(input@, pos as int, anchor as int, model) =~= before + (written
                + scan_from(input@, pos as int, anchor as int, model)));
        } else {
            pos = pos + 1;
        }
    }
    anchor
}

/// Compresses `input` into an encoded block. Never fails.
///
/// The block is the one that [`compressed`] names, so equal inputs give
/// equal blocks. Its first four bytes are the input's length, little-endian
/// (modulo 2^32). For every input of at most `u32::MAX` bytes, the longest
/// that the prefix can declare, the block decodes to the input. Input
/// without repeats grows, by one byte in 255 and six at most.
pub fn compress(input: &[u8]) -> (out: Vec<u8>)
    ensures
        out@ == compressed(input@),
        out@.len() >= 4,
        out@.subrange(0, 4) == le32(input@.len()),
        declared_len(out@) == input@.len() % 0x1_0000_0000,
        input@.len() <= u32::MAX ==> decoded(out@) == Ok::<Seq<u8>, CorruptInput>(input@),
        out@.len() <= input@.len() + input@.len() / 255 + 6,
{
    let n: usize = input.len();
    let mut out: Vec<u8> = Vec::new();
    let _ = out.try_reserve(n);
    out.push((n % 256) as u8);
    out.push(((n / 0x100) % 256) as u8);
    out.push(((n / 0x1_0000) % 256) as u8);
    out.push(((n / 0x100_0000) % 256) as u8);
    assert(out@ =~= le32(n as nat));
    let anchor: usize = if n >= MIN_MATCH + LAST_LITERALS {
        push_matches(&mut out, input)
    } else {
        0
    };
    push_tail(&mut out, input, anchor);
    proof {
        prefix_declares_length(input@);
        expansion_is_bounded(input@);
        if n <= u32::MAX {
            round_trip(input@);
        }
    }
    out
}

} // verus!
