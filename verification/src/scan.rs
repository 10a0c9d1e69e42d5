//! The compressor as a mathematical function.
//!
//! [`compressed`] gives, for every input, the one block that the compressor
//! writes: the scan over the input, the table of candidates and the choice
//! of matches are all fixed here.

use vstd::prelude::*;
use crate::error::CorruptInput;
use crate::format::{
    closes_bare, decode_stream, final_bytes, le32, sequence_bytes, MAX_OFFSET, MIN_MATCH,
};
use crate::lemmas::{
    lemma_copy_back_repeats, lemma_decode_final, lemma_decode_sequence, lemma_final_round_trip,
    lemma_length_bytes_len, lemma_sequence_round_trip,
};

verus! {

/// Number of entries of the candidate table.
pub const TABLE_SIZE: usize = 0x1_0000;

/// The last bytes of an input are always written as literals.
pub const LAST_LITERALS: usize = 5;

/// The four bytes at `i`, read as a little-endian number.
pub open spec fn word_at(x: Seq<u8>, i: int) -> nat
    recommends
        0 <= i,
        i + 4 <= x.len(),
{
    (x[i] as nat) + 0x100 * (x[i + 1] as nat) + 0x1_0000 * (x[i + 2] as nat) + 0x100_0000 * (x[i
        + 3] as nat)
}

/// The table entry for a four-byte word: the upper sixteen bits of the low
/// thirty-two bits of the word times 2654435761.
pub open spec fn bucket(word: nat) -> int {
    (((word * 2654435761) % 0x1_0000_0000) / 0x1_0000) as int
}

/// How many bytes from `b` on, before `limit`, repeat the bytes from `a` on.
pub open spec fn run_len(x: Seq<u8>, a: int, b: int, limit: int) -> nat
    decreases limit - b,
{
    if b < limit && x[a] == x[b] {
        1 + run_len(x, a + 1, b + 1, limit)
    } else {
        0
    }
}

/// A run stays before its limit, and every byte of it repeats the byte at
/// the same distance back.
pub proof fn lemma_run_len(x: Seq<u8>, a: int, b: int, limit: int)
    ensures
        run_len(x, a, b, limit) > 0 ==> b + run_len(x, a, b, limit) <= limit,
        forall|i: int| 0 <= i < run_len(x, a, b, limit) ==> x[a + i] == #[trigger] x[b + i],
    decreases limit - b,
{
    if b < limit && x[a] == x[b] {
        lemma_run_len(x, a + 1, b + 1, limit);
        assert forall|i: int| 0 <= i < run_len(x, a, b, limit) implies x[a + i] == #[trigger] x[b
            + i] by {
            if i > 0 {
                assert(x[(a + 1) + (i - 1)] == x[(b + 1) + (i - 1)]);
            }
        }
    }
}

/// The length of the match that the scan takes at `pos` against the
/// candidate `cand`, or 0 where it takes none. A candidate counts when it
/// lies before `pos`, at most 65535 bytes back; the match stops before the
/// last five bytes of the input.
pub open spec fn match_at(x: Seq<u8>, cand: int, pos: int) -> nat {
    if 0 <= cand < pos && pos - cand <= MAX_OFFSET {
        run_len(x, cand, pos, x.len() - LAST_LITERALS)
    } else {
        0
    }
}

/// The literals from `anchor` to the end of the input: a final run, or
/// nothing where no byte is left.
pub open spec fn tail_bytes(x: Seq<u8>, anchor: int) -> Seq<u8> {
    if anchor < x.len() {
        final_bytes(x.subrange(anchor, x.len() as int))
    } else {
        Seq::empty()
    }
}

/// The sequences that the scan writes from position `pos` on, when the
/// bytes from `anchor` to `pos` wait as literals and `table` holds, for each
/// bucket, the position last entered there.
///
/// At each position the table gives a candidate and takes the position in
/// its place. A match of four bytes or more is written with the waiting
/// literals and the scan goes on behind it; otherwise the byte joins the
/// literals. Where fewer than nine bytes are left no match is sought.
pub open spec fn scan_from(x: Seq<u8>, pos: int, anchor: int, table: Seq<int>) -> Seq<u8>
    recommends
        0 <= anchor <= pos <= x.len(),
        table.len() == TABLE_SIZE,
    decreases x.len() - pos,
    via scan_from_decreases
{
    if pos < 0 || pos + MIN_MATCH + LAST_LITERALS > x.len() {
        tail_bytes(x, anchor)
    } else {
        let slot = bucket(word_at(x, pos));
        let cand = table[slot];
        let next = table.update(slot, pos);
        let len = match_at(x, cand, pos);
        if len >= MIN_MATCH {
            sequence_bytes(x.subrange(anchor, pos), (pos - cand) as nat, len) + scan_from(
                x,
                pos + len,
                pos + len,
                next,
            )
        } else {
            scan_from(x, pos + 1, anchor, next)
        }
    }
}

#[via_fn]
proof fn scan_from_decreases(x: Seq<u8>, pos: int, anchor: int, table: Seq<int>) {
    if !(pos < 0 || pos + MIN_MATCH + LAST_LITERALS > x.len()) {
        lemma_run_len(x, table[bucket(word_at(x, pos))], pos, x.len() - LAST_LITERALS);
    }
}

/// The table before the scan: every bucket points at position 0.
pub open spec fn empty_table() -> Seq<int> {
    Seq::new(TABLE_SIZE as nat, |i: int| 0int)
}

/// The block that the compressor writes for `x`: the length of `x` in four
/// bytes, then the sequences of the scan.
pub open spec fn compressed(x: Seq<u8>) -> Seq<u8> {
    le32(x.len()) + scan_from(x, 0, 0, empty_table())
}

/// The sequences that the scan writes from any of its states decode, on
/// the bytes before `anchor`, to the whole input.
pub proof fn lemma_scan_round_trip(x: Seq<u8>, pos: int, anchor: int, table: Seq<int>)
    requires
        0 <= anchor <= pos <= x.len(),
    ensures
        decode_stream(scan_from(x, pos, anchor, table), x.subrange(0, anchor), x.len()) == Ok::<
            Seq<u8>,
            CorruptInput,
        >(x),
    decreases x.len() - pos,
{
    let out = x.subrange(0, anchor);
    let n = x.len() as int;
    if pos + MIN_MATCH + LAST_LITERALS > n {
        if anchor < n {
            let literals = x.subrange(anchor, n);
            lemma_decode_final(literals, out, x.len());
            assert(out + literals =~= x);
        } else {
            assert(out =~= x);
        }
    } else {
        let slot = bucket(word_at(x, pos));
        let cand = table[slot];
        let next = table.update(slot, pos);
        let len = match_at(x, cand, pos);
        if len >= MIN_MATCH {
            let literals = x.subrange(anchor, pos);
            let offset = (pos - cand) as nat;
            let tail = scan_from(x, pos + len, pos + len, next);
            lemma_run_len(x, cand, pos, n - LAST_LITERALS);
            lemma_decode_sequence(literals, offset, len, tail, out, x.len());
            assert(out + literals =~= x.subrange(0, pos));
            lemma_copy_back_repeats(x, pos, offset, len);
            lemma_scan_round_trip(x, pos + len, pos + len, next);
        } else {
            lemma_scan_round_trip(x, pos + 1, anchor, next);
        }
    }
}

/// The stream that the scan writes never closes with a bare token.
pub proof fn lemma_scan_closes_with_literals(x: Seq<u8>, pos: int, anchor: int, table: Seq<int>)
    requires
        0 <= anchor <= pos <= x.len(),
    ensures
        !closes_bare(scan_from(x, pos, anchor, table), anchor as nat, x.len()),
    decreases x.len() - pos,
{
    let n = x.len() as int;
    if pos + MIN_MATCH + LAST_LITERALS > n {
        if anchor < n {
            lemma_final_round_trip(x.subrange(anchor, n), anchor as nat, x.len());
        }
    } else {
        let slot = bucket(word_at(x, pos));
        let cand = table[slot];
        let next = table.update(slot, pos);
        let len = match_at(x, cand, pos);
        if len >= MIN_MATCH {
            let literals = x.subrange(anchor, pos);
            let tail = scan_from(x, pos + len, pos + len, next);
            lemma_run_len(x, cand, pos, n - LAST_LITERALS);
            lemma_sequence_round_trip(
                literals,
                (pos - cand) as nat,
                len,
                tail,
                anchor as nat,
                x.len(),
            );
            lemma_scan_closes_with_literals(x, pos + len, pos + len, next);
        } else {
            lemma_scan_closes_with_literals(x, pos + 1, anchor, next);
        }
    }
}

/// The stream that the scan writes ends with the last five bytes of the
/// input, as literals.
pub proof fn lemma_scan_keeps_last_literals(x: Seq<u8>, pos: int, anchor: int, table: Seq<int>)
    requires
        0 <= anchor <= pos <= x.len(),
        anchor + LAST_LITERALS <= x.len(),
    ensures
        scan_from(x, pos, anchor, table).len() > LAST_LITERALS,
        scan_from(x, pos, anchor, table).skip(
            scan_from(x, pos, anchor, table).len() - LAST_LITERALS,
        ) == x.skip(x.len() - LAST_LITERALS),
    decreases x.len() - pos,
{
    let n = x.len() as int;
    let s = scan_from(x, pos, anchor, table);
    if pos + MIN_MATCH + LAST_LITERALS > n {
        assert(s.skip(s.len() - LAST_LITERALS) =~= x.skip(n - LAST_LITERALS));
    } else {
        let slot = bucket(word_at(x, pos));
        let cand = table[slot];
        let next = table.update(slot, pos);
        let len = match_at(x, cand, pos);
        if len >= MIN_MATCH {
            let tail = scan_from(x, pos + len, pos + len, next);
            lemma_run_len(x, cand, pos, n - LAST_LITERALS);
            lemma_scan_keeps_last_literals(x, pos + len, pos + len, next);
            assert(s.skip(s.len() - LAST_LITERALS) =~= tail.skip(tail.len() - LAST_LITERALS));
        } else {
            lemma_scan_keeps_last_literals(x, pos + 1, anchor, next);
        }
    }
}

/// The stream that the scan writes is longer than the bytes it still has
/// to cover by at most one byte in 255, and two.
pub proof fn lemma_scan_len(x: Seq<u8>, pos: int, anchor: int, table: Seq<int>)
    requires
        0 <= anchor <= pos <= x.len(),
    ensures
        scan_from(x, pos, anchor, table).len() <= (x.len() - anchor) + (x.len() - anchor) / 255
            + 2,
    decreases x.len() - pos,
{
    let n = x.len() as int;
    if pos + MIN_MATCH + LAST_LITERALS > n {
        lemma_length_bytes_len((n - anchor) as nat);
    } else {
        let slot = bucket(word_at(x, pos));
        let cand = table[slot];
        let next = table.update(slot, pos);
        let len = match_at(x, cand, pos);
        if len >= MIN_MATCH {
            lemma_run_len(x, cand, pos, n - LAST_LITERALS);
            lemma_length_bytes_len((pos - anchor) as nat);
            lemma_length_bytes_len((len - MIN_MATCH) as nat);
            lemma_scan_len(x, pos + len, pos + len, next);
        } else {
            lemma_scan_len(x, pos + 1, anchor, next);
        }
    }
}

} // verus!
