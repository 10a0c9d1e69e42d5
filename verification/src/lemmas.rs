//! Facts about the format's spec functions that the codec's proofs share.

use vstd::prelude::*;
use vstd::arithmetic::div_mod::{lemma_div_denominator, lemma_fundamental_div_mod};
use crate::error::CorruptInput;
use crate::format::{
    closes_bare, copy_back, declared_len, decode_stream, extension, extension_bytes,
    final_bytes, finish, first_sequence, le32, length_bytes, length_field, nibble, replay,
    replayable, sequence_bytes, stream_bytes, Sequence, Step, MAX_OFFSET, MIN_MATCH,
};

verus! {

/// A length's continuation bytes are at least one and lie within the stream.
pub proof fn lemma_extension_bounds(s: Seq<u8>)
    ensures
        match extension(s) {
            None => true,
            Some((sum, count)) => 1 <= count <= s.len() && sum < 255 * count,
        },
    decreases s.len(),
{
    if s.len() > 0 && s[0] == 255 {
        lemma_extension_bounds(s.skip(1));
    }
}

/// A length field lies within the stream, and the nibble bounds the length
/// from below.
pub proof fn lemma_length_field_bounds(nibble: nat, s: Seq<u8>)
    ensures
        match length_field(nibble, s) {
            None => nibble >= 15,
            Some((len, count)) => count <= s.len() && (nibble < 15 ==> len == nibble && count == 0)
                && (nibble >= 15 ==> len >= 15 && count >= 1),
        },
{
    lemma_extension_bounds(s);
}

/// What a parsed sequence says of its parts: the sequence lies within the
/// stream, the offset reaches into the output, the match has at least four
/// bytes, and the bytes produced fit the declared length.
pub proof fn lemma_sequence_bounds(s: Seq<u8>, produced: nat, expected: nat)
    requires
        s.len() > 0,
    ensures
        match first_sequence(s, produced, expected) {
            Step::Fail(_) => true,
            Step::Last { literals } => literals.len() < s.len() && produced + literals.len()
                <= expected,
            Step::Copy { literals, offset, match_len, consumed } => 3 + literals.len() <= consumed
                <= s.len() && 1 <= offset <= produced + literals.len() && offset <= MAX_OFFSET
                && match_len >= MIN_MATCH && produced + literals.len() + match_len <= expected,
        },
{
    reveal(first_sequence);
    let token = s[0] as nat;
    lemma_length_field_bounds(token / 16, s.skip(1));
    match length_field(token / 16, s.skip(1)) {
        None => {},
        Some((lit_len, lit_ext)) => {
            let lit_end = 1 + lit_ext + lit_len;
            if lit_end + 2 <= s.len() {
                lemma_length_field_bounds(token % 16, s.skip(lit_end as int + 2));
            }
        },
    }
}

/// A back-reference of `n` bytes lengthens the output by `n` and keeps what
/// was there.
pub proof fn lemma_copy_back_len(out: Seq<u8>, offset: nat, n: nat)
    requires
        1 <= offset <= out.len(),
    ensures
        copy_back(out, offset, n).len() == out.len() + n,
        copy_back(out, offset, n).subrange(0, out.len() as int) == out,
    decreases n,
{
    if n > 0 {
        let next = out.push(out[out.len() - offset]);
        lemma_copy_back_len(next, offset, (n - 1) as nat);
        assert(copy_back(out, offset, n).subrange(0, out.len() as int) =~= copy_back(
            next,
            offset,
            (n - 1) as nat,
        ).subrange(0, next.len() as int).subrange(0, out.len() as int));
        assert(next.subrange(0, out.len() as int) =~= out);
    } else {
        assert(out.subrange(0, out.len() as int) =~= out);
    }
}

/// The four base-256 digits of `n` add up to `n` modulo 2^32.
pub proof fn lemma_le32_digits(n: nat)
    ensures
        n % 256 + 0x100 * ((n / 0x100) % 256) + 0x1_0000 * ((n / 0x1_0000) % 256) + 0x100_0000 * ((n
            / 0x100_0000) % 256) == n % 0x1_0000_0000,
{
    let n = n as int;
    let q1 = n / 0x100;
    let q2 = n / 0x1_0000;
    let q3 = n / 0x100_0000;
    let q4 = n / 0x1_0000_0000;
    lemma_div_denominator(n, 0x100, 0x100);
    lemma_div_denominator(n, 0x1_0000, 0x100);
    lemma_div_denominator(n, 0x100_0000, 0x100);
    assert(q2 == q1 / 256);
    assert(q3 == q2 / 256);
    assert(q4 == q3 / 256);
    lemma_fundamental_div_mod(n, 256);
    lemma_fundamental_div_mod(q1, 256);
    lemma_fundamental_div_mod(q2, 256);
    lemma_fundamental_div_mod(q3, 256);
    lemma_fundamental_div_mod(n, 0x1_0000_0000);
}

/// The prefix written for `n` declares `n` modulo 2^32, whatever follows.
pub proof fn lemma_declared_len(n: nat, body: Seq<u8>)
    ensures
        (le32(n) + body).len() == 4 + body.len(),
        declared_len(le32(n) + body) == n % 0x1_0000_0000,
        (le32(n) + body).skip(4) == body,
        (le32(n) + body).subrange(0, 4) == le32(n),
{
    let block = le32(n) + body;
    lemma_le32_digits(n);
    assert(block[0] == le32(n)[0]);
    assert(block[1] == le32(n)[1]);
    assert(block[2] == le32(n)[2]);
    assert(block[3] == le32(n)[3]);
    assert(block.skip(4) =~= body);
    assert(block.subrange(0, 4) =~= le32(n));
}

/// Continuation bytes written for `rest` are read back as `rest`, whatever
/// follows them.
pub proof fn lemma_extension_round_trip(rest: nat, tail: Seq<u8>)
    ensures
        extension(extension_bytes(rest) + tail) == Some((rest, extension_bytes(rest).len())),
    decreases rest,
{
    let s = extension_bytes(rest) + tail;
    if rest >= 255 {
        let less = (rest - 255) as nat;
        lemma_extension_round_trip(less, tail);
        assert(s[0] == 255);
        assert(s.skip(1) =~= extension_bytes(less) + tail);
    } else {
        assert(s[0] == rest as u8);
    }
}

/// A length takes one continuation byte for every 255 above 15, and one
/// more.
pub proof fn lemma_length_bytes_len(len: nat)
    ensures
        length_bytes(len).len() == if len < 15 {
            0
        } else {
            (len - 15) / 255 + 1
        },
{
    if len >= 15 {
        lemma_extension_bytes_len((len - 15) as nat);
    }
}

/// The continuation bytes for `rest` are one for every full 255, and one
/// more.
pub proof fn lemma_extension_bytes_len(rest: nat)
    ensures
        extension_bytes(rest).len() == rest / 255 + 1,
    decreases rest,
{
    if rest >= 255 {
        lemma_extension_bytes_len((rest - 255) as nat);
    }
}

/// A length written as nibble and continuation bytes is read back as the
/// same length, whatever follows.
pub proof fn lemma_length_round_trip(len: nat, tail: Seq<u8>)
    ensures
        length_field(nibble(len), length_bytes(len) + tail) == Some(
            (len, length_bytes(len).len()),
        ),
{
    if len >= 15 {
        lemma_extension_round_trip((len - 15) as nat, tail);
    }
}

/// Where the input repeats itself at distance `offset` for `n` bytes from
/// `p` on, a back-reference on its first `p` bytes yields its first `p + n`.
pub proof fn lemma_copy_back_repeats(x: Seq<u8>, p: int, offset: nat, n: nat)
    requires
        1 <= offset <= p,
        p + n <= x.len(),
        forall|i: int| 0 <= i < n ==> x[p - offset + i] == #[trigger] x[p + i],
    ensures
        copy_back(x.subrange(0, p), offset, n) == x.subrange(0, p + n),
    decreases n,
{
    if n > 0 {
        let out = x.subrange(0, p);
        assert(x[p - offset + 0] == x[p + 0]);
        assert(out.push(out[out.len() - offset]) =~= x.subrange(0, p + 1));
        assert forall|i: int| 0 <= i < n - 1 implies x[p + 1 - offset + i] == #[trigger] x[p + 1
            + i] by {
            assert(x[p - offset + (i + 1)] == x[p + (i + 1)]);
        }
        lemma_copy_back_repeats(x, p + 1, offset, (n - 1) as nat);
    }
}

/// How a written sequence is parsed, whatever follows it in the stream:
/// as the sequence that was written, unless its bytes do not fit the
/// declared length or its offset does not reach into the output.
pub proof fn lemma_sequence_round_trip(
    literals: Seq<u8>,
    offset: nat,
    match_len: nat,
    tail: Seq<u8>,
    produced: nat,
    expected: nat,
)
    requires
        offset <= MAX_OFFSET,
        match_len >= MIN_MATCH,
    ensures
        first_sequence(sequence_bytes(literals, offset, match_len) + tail, produced, expected)
            == if produced + literals.len() > expected {
            Step::Fail(CorruptInput::LengthMismatch)
        } else if offset == 0 {
            Step::Fail(CorruptInput::ZeroOffset)
        } else if offset > produced + literals.len() {
            Step::Fail(CorruptInput::OffsetOutOfRange)
        } else if produced + literals.len() + match_len > expected {
            Step::Fail(CorruptInput::LengthMismatch)
        } else {
            Step::Copy {
                literals,
                offset,
                match_len,
                consumed: sequence_bytes(literals, offset, match_len).len(),
            }
        },
        (sequence_bytes(literals, offset, match_len) + tail).skip(
            sequence_bytes(literals, offset, match_len).len() as int,
        ) == tail,
{
    reveal(first_sequence);
    let extra = (match_len - MIN_MATCH) as nat;
    let token = (16 * nibble(literals.len()) + nibble(extra)) as u8;
    let lit_field = length_bytes(literals.len());
    let off_bytes = seq![(offset % 256) as u8, (offset / 256) as u8];
    let match_field = length_bytes(extra);
    let written = sequence_bytes(literals, offset, match_len);
    let s = written + tail;
    let lit_start = 1 + lit_field.len();
    let lit_end = lit_start + literals.len();
    assert(s[0] == token);
    assert((token as nat) / 16 == nibble(literals.len()));
    assert((token as nat) % 16 == nibble(extra));
    assert(s.skip(1) =~= lit_field + (literals + off_bytes + match_field + tail));
    lemma_length_round_trip(literals.len(), literals + off_bytes + match_field + tail);
    assert(s.subrange(lit_start as int, lit_end as int) =~= literals);
    assert(s[lit_end as int] == off_bytes[0]);
    assert(s[lit_end as int + 1] == off_bytes[1]);
    assert(s.skip(lit_end as int + 2) =~= match_field + tail);
    lemma_length_round_trip(extra, tail);
    assert(written.len() == lit_end + 2 + match_field.len());
    assert(s.skip(written.len() as int) =~= tail);
}

/// A written final run is parsed as the run that was written.
pub proof fn lemma_final_round_trip(literals: Seq<u8>, produced: nat, expected: nat)
    requires
        produced + literals.len() <= expected,
    ensures
        first_sequence(final_bytes(literals), produced, expected) == (Step::Last { literals }),
{
    reveal(first_sequence);
    let token = (16 * nibble(literals.len())) as u8;
    let lit_field = length_bytes(literals.len());
    let s = final_bytes(literals);
    let lit_start = 1 + lit_field.len();
    assert(s[0] == token);
    assert((token as nat) / 16 == nibble(literals.len()));
    assert(s.skip(1) =~= lit_field + literals);
    lemma_length_round_trip(literals.len(), literals);
    assert(s.subrange(lit_start as int, s.len() as int) =~= literals);
}

/// Decoding a stream that begins with a written sequence carries the
/// sequence out and goes on with what follows it.
pub proof fn lemma_decode_sequence(
    literals: Seq<u8>,
    offset: nat,
    match_len: nat,
    tail: Seq<u8>,
    out: Seq<u8>,
    expected: nat,
)
    requires
        1 <= offset <= MAX_OFFSET,
        offset <= out.len() + literals.len(),
        match_len >= MIN_MATCH,
        out.len() + literals.len() + match_len <= expected,
    ensures
        decode_stream(sequence_bytes(literals, offset, match_len) + tail, out, expected)
            == decode_stream(tail, copy_back(out + literals, offset, match_len), expected),
{
    lemma_sequence_round_trip(literals, offset, match_len, tail, out.len(), expected);
}

/// Decoding a written final run appends its literals and finishes.
pub proof fn lemma_decode_final(literals: Seq<u8>, out: Seq<u8>, expected: nat)
    requires
        out.len() + literals.len() <= expected,
    ensures
        decode_stream(final_bytes(literals), out, expected) == finish(out + literals, expected),
{
    lemma_final_round_trip(literals, out.len(), expected);
}

/// Carrying sequences out only lengthens the output.
pub proof fn lemma_replay_len(sequences: Seq<Sequence>, out: Seq<u8>)
    requires
        replayable(sequences, out.len()),
    ensures
        replay(sequences, out).len() >= out.len(),
        sequences.len() > 0 ==> replay(sequences, out).len() >= out.len()
            + sequences[0].literals.len() + sequences[0].match_len,
    decreases sequences.len(),
{
    if sequences.len() > 0 {
        let first = sequences[0];
        lemma_copy_back_len(out + first.literals, first.offset, first.match_len);
        lemma_replay_len(
            sequences.skip(1),
            copy_back(out + first.literals, first.offset, first.match_len),
        );
    }
}

/// Decoding a stream that begins with written sequences carries them out
/// and goes on with what follows, unless their output exceeds the declared
/// length.
pub proof fn lemma_decode_stream_bytes(
    sequences: Seq<Sequence>,
    tail: Seq<u8>,
    out: Seq<u8>,
    expected: nat,
)
    requires
        replayable(sequences, out.len()),
        out.len() <= expected,
    ensures
        decode_stream(stream_bytes(sequences) + tail, out, expected) == if replay(
            sequences,
            out,
        ).len() <= expected {
            decode_stream(tail, replay(sequences, out), expected)
        } else {
            Err(CorruptInput::LengthMismatch)
        },
    decreases sequences.len(),
{
    if sequences.len() == 0 {
        assert(stream_bytes(sequences) + tail =~= tail);
    } else {
        let first = sequences[0];
        let written = sequence_bytes(first.literals, first.offset, first.match_len);
        let rest = stream_bytes(sequences.skip(1)) + tail;
        let grown = copy_back(out + first.literals, first.offset, first.match_len);
        assert(stream_bytes(sequences) + tail =~= written + rest);
        lemma_replay_len(sequences, out);
        lemma_copy_back_len(out + first.literals, first.offset, first.match_len);
        lemma_sequence_round_trip(
            first.literals,
            first.offset,
            first.match_len,
            rest,
            out.len(),
            expected,
        );
        if out.len() + first.literals.len() + first.match_len <= expected {
            lemma_decode_stream_bytes(sequences.skip(1), tail, grown, expected);
        }
    }
}

/// How a length's continuation bytes are read when the stream loses its
/// last byte: as before where they end earlier, and not at all where the
/// lost byte was theirs.
pub proof fn lemma_extension_drop_last(s: Seq<u8>)
    requires
        s.len() >= 1,
    ensures
        match extension(s) {
            None => extension(s.drop_last()) is None,
            Some((sum, count)) => if count < s.len() {
                extension(s.drop_last()) == Some((sum, count))
            } else {
                extension(s.drop_last()) is None
            },
        },
    decreases s.len(),
{
    let t = s.drop_last();
    if s.len() >= 2 {
        assert(t[0] == s[0]);
        if s[0] == 255 {
            assert(t.skip(1) =~= s.skip(1).drop_last());
            lemma_extension_drop_last(s.skip(1));
        }
    }
}

/// The same for a whole length field.
pub proof fn lemma_length_field_drop_last(nibble: nat, s: Seq<u8>)
    requires
        s.len() >= 1,
    ensures
        match length_field(nibble, s) {
            None => length_field(nibble, s.drop_last()) is None,
            Some((len, count)) => if count < s.len() {
                length_field(nibble, s.drop_last()) == Some((len, count))
            } else {
                length_field(nibble, s.drop_last()) is None
            },
        },
{
    lemma_extension_drop_last(s);
}

/// A stream that decodes and does not close with a bare token, with its
/// last byte dropped, is truncated.
pub proof fn lemma_stream_truncation(s: Seq<u8>, out: Seq<u8>, expected: nat)
    requires
        s.len() >= 1,
        decode_stream(s, out, expected) is Ok,
        !closes_bare(s, out.len(), expected),
    ensures
        decode_stream(s.drop_last(), out, expected) == Err::<Seq<u8>, CorruptInput>(
            CorruptInput::Truncated,
        ),
    decreases s.len(),
{
    reveal(first_sequence);
    let t = s.drop_last();
    let produced = out.len();
    let token = s[0] as nat;
    lemma_sequence_bounds(s, produced, expected);
    if s.len() >= 2 {
        assert(t[0] == s[0]);
        assert(t.skip(1) =~= s.skip(1).drop_last());
        lemma_length_field_bounds(token / 16, s.skip(1));
        lemma_length_field_drop_last(token / 16, s.skip(1));
        match length_field(token / 16, s.skip(1)) {
            None => {},
            Some((lit_len, lit_ext)) => {
                let lit_start = 1 + lit_ext as int;
                let lit_end = lit_start + lit_len;
                assert(length_field(token / 16, t.skip(1)) == Some((lit_len, lit_ext)));
                if lit_end + 2 < s.len() {
                    let after = s.skip(lit_end + 2);
                    assert(t.subrange(lit_start, lit_end) =~= s.subrange(lit_start, lit_end));
                    assert(t[lit_end] == s[lit_end]);
                    assert(t[lit_end + 1] == s[lit_end + 1]);
                    assert(t.skip(lit_end + 2) =~= after.drop_last());
                    lemma_length_field_bounds(token % 16, after);
                    lemma_length_field_drop_last(token % 16, after);
                    match length_field(token % 16, after) {
                        None => {},
                        Some((extra, match_ext)) => {
                            let consumed = lit_end + 2 + match_ext;
                            if consumed < s.len() {
                                let literals = s.subrange(lit_start, lit_end);
                                let offset = (s[lit_end] as nat) + 256 * (s[lit_end + 1] as nat);
                                let grown = copy_back(out + literals, offset, extra + 4);
                                assert(t.skip(consumed) =~= s.skip(consumed).drop_last());
                                lemma_copy_back_len(out + literals, offset, extra + 4);
                                lemma_stream_truncation(s.skip(consumed), grown, expected);
                            }
                        },
                    }
                }
            },
        }
    }
}

/// A stream that decodes and closes with a bare token decodes to the same
/// bytes without that token.
pub proof fn lemma_bare_token_dropped(s: Seq<u8>, out: Seq<u8>, expected: nat)
    requires
        decode_stream(s, out, expected) is Ok,
        closes_bare(s, out.len(), expected),
    ensures
        decode_stream(s.drop_last(), out, expected) == decode_stream(s, out, expected),
    decreases s.len(),
{
    reveal(first_sequence);
    let t = s.drop_last();
    let token = s[0] as nat;
    lemma_sequence_bounds(s, out.len(), expected);
    lemma_length_field_bounds(token / 16, s.skip(1));
    match first_sequence(s, out.len(), expected) {
        Step::Fail(_) => {},
        Step::Last { literals } => {
            assert(out + literals =~= out);
        },
        Step::Copy { literals, offset, match_len, consumed } => {
            let grown = copy_back(out + literals, offset, match_len);
            let rest = s.skip(consumed as int);
            lemma_copy_back_len(out + literals, offset, match_len);
            assert(closes_bare(rest, grown.len(), expected));
            assert(rest.len() > 0);
            lemma_bare_token_dropped(rest, grown, expected);
            lemma_front_kept(s, out.len(), expected);
            assert(t.skip(consumed as int) =~= rest.drop_last());
        },
    }
}

/// A sequence with a back-reference is parsed the same when bytes behind
/// it leave the end of the stream.
pub proof fn lemma_front_kept(s: Seq<u8>, produced: nat, expected: nat)
    requires
        s.len() >= 1,
        first_sequence(s, produced, expected) is Copy,
        first_sequence(s, produced, expected)->consumed < s.len(),
    ensures
        first_sequence(s.drop_last(), produced, expected) == first_sequence(s, produced, expected),
{
    reveal(first_sequence);
    let t = s.drop_last();
    let token = s[0] as nat;
    assert(t[0] == s[0]);
    assert(t.skip(1) =~= s.skip(1).drop_last());
    lemma_length_field_bounds(token / 16, s.skip(1));
    lemma_length_field_drop_last(token / 16, s.skip(1));
    match length_field(token / 16, s.skip(1)) {
        None => {},
        Some((lit_len, lit_ext)) => {
            let lit_start = 1 + lit_ext as int;
            let lit_end = lit_start + lit_len;
            let after = s.skip(lit_end + 2);
            assert(t.subrange(lit_start, lit_end) =~= s.subrange(lit_start, lit_end));
            assert(t[lit_end] == s[lit_end]);
            assert(t[lit_end + 1] == s[lit_end + 1]);
            assert(t.skip(lit_end + 2) =~= after.drop_last());
            lemma_length_field_bounds(token % 16, after);
            lemma_length_field_drop_last(token % 16, after);
        },
    }
}

} // verus!
