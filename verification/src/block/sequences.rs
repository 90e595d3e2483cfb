//! Blocks written down from the sequences that they hold, and what the sequences
//! stand for. What is written is decompressed to just that, and nothing else is
//! decompressed at all.

use crate::block::decompress::{
    decode_block, decode_from, decode_match, decode_sequence, extra_length, field_length,
    law_decode_appends, lemma_decode_sequence, lemma_field_length, lemma_with_match_step,
    with_match,
};
use crate::block::DecompressError;
use crate::bytes::{law_le_value_2, le_value, lemma_joined};
use vstd::prelude::*;

verus! {

/// Literals, and then a match: `length` bytes, each the same as the byte that
/// stands `offset` before it.
pub struct Sequence {
    /// The literals.
    pub literals: Seq<u8>,
    /// How far back the match reaches.
    pub offset: int,
    /// The length of the match.
    pub length: int,
}

/// The half of a token for the number `n`.
pub open spec fn half_of(n: int) -> int {
    if n < 15 {
        n
    } else {
        15
    }
}

/// The further bytes for the number `n`: where it is 15 or more, what is above 15
/// in bytes of 255 and a last one that is less.
pub open spec fn length_bytes(n: int) -> Seq<u8> {
    if n < 15 {
        Seq::empty()
    } else {
        repeated(255, (n - 15) / 255).push(((n - 15) % 255) as u8)
    }
}

/// A byte over and over again.
pub open spec fn repeated(byte: u8, n: int) -> Seq<u8> {
    Seq::new(n as nat, |i: int| byte)
}

/// The token for the halves `upper` and `lower`.
pub open spec fn token(upper: int, lower: int) -> Seq<u8> {
    seq![(16 * upper + lower) as u8]
}

/// The start of a sequence: the token, the length of the literals, and the
/// literals.
pub open spec fn literals_bytes(literals: Seq<u8>, lower: int) -> Seq<u8> {
    token(half_of(literals.len() as int), lower) + length_bytes(literals.len() as int) + literals
}

/// An offset, in two bytes.
pub open spec fn offset_bytes(offset: int) -> Seq<u8> {
    seq![(offset % 256) as u8, (offset / 256) as u8]
}

impl Sequence {
    /// The sequence, written down.
    pub open spec fn bytes(self) -> Seq<u8> {
        literals_bytes(self.literals, half_of(self.length - 4)) + offset_bytes(self.offset)
            + length_bytes(self.length - 4)
    }

    /// Whether there is such a sequence behind `out`.
    pub open spec fn fits(self, out: Seq<u8>) -> bool {
        &&& 1 <= self.offset <= 65535
        &&& self.offset <= out.len() + self.literals.len()
        &&& 4 <= self.length
    }

    /// `out` with the sequence behind it: the bytes of the match repeat the last
    /// `offset` bytes before it.
    pub open spec fn after(self, out: Seq<u8>) -> Seq<u8> {
        let all = out + self.literals;
        Seq::new(
            (all.len() + self.length) as nat,
            |i: int|
                if i < all.len() {
                    all[i]
                } else {
                    all[all.len() - self.offset + (i - all.len()) % self.offset]
                },
        )
    }
}

/// Sequences one after the other, written down.
pub open spec fn sequences_bytes(sequences: Seq<Sequence>) -> Seq<u8>
    decreases sequences.len(),
{
    if sequences.len() == 0 {
        Seq::empty()
    } else {
        sequences[0].bytes() + sequences_bytes(sequences.skip(1))
    }
}

/// `out` with the sequences behind it.
pub open spec fn after_all(out: Seq<u8>, sequences: Seq<Sequence>) -> Seq<u8>
    decreases sequences.len(),
{
    if sequences.len() == 0 {
        out
    } else {
        after_all(sequences[0].after(out), sequences.skip(1))
    }
}

/// Whether there are such sequences behind `out`.
pub open spec fn fit_all(out: Seq<u8>, sequences: Seq<Sequence>) -> bool
    decreases sequences.len(),
{
    sequences.len() > 0 ==> {
        &&& sequences[0].fits(out)
        &&& fit_all(sequences[0].after(out), sequences.skip(1))
    }
}

/// A block: sequences, and then literals. The lower half of the last token says
/// nothing.
pub struct Block {
    /// The sequences.
    pub sequences: Seq<Sequence>,
    /// The literals at the end.
    pub last: Seq<u8>,
    /// The lower half of the last token.
    pub lower: int,
}

impl Block {
    /// The block, written down.
    pub open spec fn bytes(self) -> Seq<u8> {
        sequences_bytes(self.sequences) + literals_bytes(self.last, self.lower)
    }

    /// Whether there is such a block behind `history`.
    pub open spec fn fits(self, history: Seq<u8>) -> bool {
        &&& fit_all(history, self.sequences)
        &&& 0 <= self.lower < 16
    }

    /// `history` with the block behind it.
    pub open spec fn after(self, history: Seq<u8>) -> Seq<u8> {
        after_all(history, self.sequences) + self.last
    }

    /// What the block adds to `history`.
    pub open spec fn data(self, history: Seq<u8>) -> Seq<u8> {
        self.after(history).skip(history.len() as int)
    }
}

proof fn lemma_extra_counts(src: Seq<u8>, i: int, k: int)
    requires
        0 <= i,
        0 <= k,
        i + k < src.len(),
        forall|j: int| i <= j < i + k ==> src[j] == 255,
        src[i + k] != 255,
    ensures
        extra_length(src, i) == Some((255 * k + src[i + k], i + k + 1)),
    decreases k,
{
    if k > 0 {
        lemma_extra_counts(src, i + 1, k - 1);
    }
}

/// A length that is written down is read back, whatever stands before and behind
/// it: the half of the token for a number below 15, else 15 and as many bytes of
/// 255 as there are in the rest, and what remains.
pub proof fn law_length_is_read(n: int, before: Seq<u8>, after: Seq<u8>)
    requires
        0 <= n,
    ensures
        field_length(half_of(n) as u8, before + length_bytes(n) + after, before.len() as int)
            == Some((n, (before.len() + length_bytes(n).len()) as int)),
{
    let src = before + length_bytes(n) + after;
    let i = before.len() as int;
    if n >= 15 {
        let k = (n - 15) / 255;
        assert forall|j: int| i <= j < i + k implies src[j] == 255 by {
            assert(src[j] == length_bytes(n)[j - i]);
        }
        assert(src[i + k] == length_bytes(n)[k]);
        lemma_extra_counts(src, i, k);
    }
}

proof fn lemma_extra_spells(src: Seq<u8>, i: int) -> (k: int)
    requires
        0 <= i,
        extra_length(src, i) is Some,
    ensures
        0 <= k,
        i + k < src.len(),
        src[i + k] != 255,
        src.subrange(i, i + k) == repeated(255, k),
        extra_length(src, i) == Some((255 * k + src[i + k], i + k + 1)),
    decreases src.len() - i,
{
    if src[i] != 255 {
        assert(src.subrange(i, i) =~= repeated(255, 0));
        0
    } else {
        let k = lemma_extra_spells(src, i + 1);
        assert(src.subrange(i, i + 1 + k) =~= seq![255u8] + src.subrange(i + 1, i + 1 + k));
        assert(src.subrange(i, i + 1 + k) =~= repeated(255, k + 1));
        k + 1
    }
}

/// A length that is read stands there just as it would be written down.
pub proof fn law_length_is_written(half: u8, src: Seq<u8>, i: int)
    requires
        half <= 15,
        0 <= i <= src.len(),
    ensures
        field_length(half, src, i) matches Some((n, j)) ==> {
            &&& 0 <= n
            &&& i <= j <= src.len()
            &&& half == half_of(n)
            &&& src.subrange(i, j) == length_bytes(n)
        },
{
    lemma_field_length(half, src, i);
    if field_length(half, src, i) is Some {
        let (n, j) = field_length(half, src, i).unwrap();
        if half == 15 {
            let k = lemma_extra_spells(src, i);
            assert(n == 15 + 255 * k + src[i + k]);
            assert((n - 15) / 255 == k && (n - 15) % 255 == src[i + k]);
            assert(src.subrange(i, j) =~= src.subrange(i, i + k).push(src[i + k]));
        } else {
            assert(src.subrange(i, j) =~= Seq::empty());
        }
    }
}

proof fn lemma_extra_missing(src: Seq<u8>, i: int)
    requires
        0 <= i,
        forall|j: int| i <= j < src.len() ==> src[j] == 255,
    ensures
        extra_length(src, i) is None,
    decreases src.len() - i,
{
    if i < src.len() {
        lemma_extra_missing(src, i + 1);
    }
}

/// A length is missing just where its half is 15 and no byte but 255 follows.
pub proof fn law_length_is_missing(half: u8, src: Seq<u8>, i: int)
    requires
        half <= 15,
        0 <= i <= src.len(),
    ensures
        field_length(half, src, i) is None <==> half == 15 && (forall|j: int|
            i <= j < src.len() ==> src[j] == 255),
{
    if half == 15 {
        if forall|j: int| i <= j < src.len() ==> src[j] == 255 {
            lemma_extra_missing(src, i);
        } else {
            if extra_length(src, i) is None {
                lemma_no_extra(src, i);
            }
        }
    }
}

proof fn lemma_no_extra(src: Seq<u8>, i: int)
    requires
        0 <= i,
        extra_length(src, i) is None,
    ensures
        forall|j: int| i <= j < src.len() ==> src[j] == 255,
    decreases src.len() - i,
{
    if i < src.len() {
        lemma_no_extra(src, i + 1);
        assert forall|j: int| i <= j < src.len() implies src[j] == 255 by {
            if j > i {
                assert(i + 1 <= j);
            }
        }
    }
}

/// A match repeats the last `offset` bytes.
pub proof fn law_match_repeats(out: Seq<u8>, offset: int, n: int)
    requires
        1 <= offset <= out.len(),
        0 <= n,
    ensures
        with_match(out, offset, n).len() == out.len() + n,
        forall|i: int| 0 <= i < out.len() ==> #[trigger] with_match(out, offset, n)[i] == out[i],
        forall|i: int|
            out.len() <= i < out.len() + n ==> #[trigger] with_match(out, offset, n)[i]
                == out[out.len() - offset + (i - out.len()) % offset],
    decreases n,
{
    if n > 0 {
        law_match_repeats(out, offset, n - 1);
        lemma_with_match_step(out, offset, n - 1);
        let m = with_match(out, offset, n - 1);
        let k = n - 1;
        assert(m.len() - offset == out.len() + k - offset);
        if k < offset {
            vstd::arithmetic::div_mod::lemma_small_mod(k as nat, offset as nat);
        } else {
            vstd::arithmetic::div_mod::lemma_mod_sub_multiples_vanish(k, offset);
            assert(m[out.len() + k - offset] == out[out.len() - offset + (k - offset) % offset]);
        }
    }
}

/// In a sequence that is decoded, every byte of the match is the byte that stands
/// `offset` before it, `offset` being the number that the two bytes behind the
/// literals spell, the lower one first; and the match is as long as the length
/// that stands there says, and four more.
pub proof fn law_match_copies(src: Seq<u8>, i: int, out: Seq<u8>, shift: int, limit: int)
    requires
        0 <= i < src.len(),
        decode_sequence(src, i, out, shift, limit) matches Ok((_, rest)) && rest is Some,
    ensures
        ({
            let (all, next) = decode_sequence(src, i, out, shift, limit).unwrap();
            let (literals, j) = field_length(src[i] / 16, src, i + 1).unwrap();
            let k = j + literals;
            let p = out.len() + literals;
            let offset = src[k] + 256 * src[k + 1];
            let (extra, end) = field_length(src[i] % 16, src, k + 2).unwrap();
            &&& next == Some(end)
            &&& all.len() == p + 4 + extra
            &&& all.take(p) == out + src.subrange(j, k)
            &&& 1 <= offset <= p
            &&& forall|x: int| p <= x < all.len() ==> all[x] == #[trigger] all[x - offset]
        }),
{
    lemma_field_length(src[i] / 16, src, i + 1);
    let (all, next) = decode_sequence(src, i, out, shift, limit).unwrap();
    let (literals, j) = field_length(src[i] / 16, src, i + 1).unwrap();
    let k = j + literals;
    let out1 = out + src.subrange(j, k);
    let p = out1.len() as int;
    let offset = le_value(src.subrange(k, k + 2)) as int;
    law_le_value_2(src.subrange(k, k + 2));
    lemma_field_length(src[i] % 16, src, k + 2);
    let (extra, end) = field_length(src[i] % 16, src, k + 2).unwrap();
    law_match_repeats(out1, offset, 4 + extra);
    assert(all == with_match(out1, offset, 4 + extra));
    assert(all.take(p) =~= out1);
    assert forall|x: int| p <= x < all.len() implies all[x] == #[trigger] all[x - offset] by {
        let y = x - p;
        if y < offset {
            vstd::arithmetic::div_mod::lemma_small_mod(y as nat, offset as nat);
        } else {
            vstd::arithmetic::div_mod::lemma_mod_sub_multiples_vanish(y, offset);
            assert(all[x - offset] == out1[p - offset + (y - offset) % offset]);
        }
    }
}

proof fn lemma_extra_behind(before: Seq<u8>, src: Seq<u8>, i: int)
    requires
        0 <= i,
    ensures
        extra_length(before + src, before.len() + i) == match extra_length(src, i) {
            Some((n, j)) => Some((n, before.len() + j)),
            None => None,
        },
    decreases src.len() - i,
{
    if i < src.len() {
        assert((before + src)[before.len() + i] == src[i]);
        lemma_extra_behind(before, src, i + 1);
    }
}

proof fn lemma_field_behind(half: u8, before: Seq<u8>, src: Seq<u8>, i: int)
    requires
        0 <= i,
    ensures
        field_length(half, before + src, before.len() + i) == match field_length(half, src, i) {
            Some((n, j)) => Some((n, before.len() + j)),
            None => None,
        },
{
    lemma_extra_behind(before, src, i);
}

#[verifier::rlimit(30)]
proof fn lemma_sequence_behind(
    before: Seq<u8>,
    src: Seq<u8>,
    i: int,
    out: Seq<u8>,
    shift: int,
    limit: int,
)
    requires
        0 <= i,
    ensures
        decode_sequence(before + src, before.len() + i, out, shift, limit) == match decode_sequence(
            src,
            i,
            out,
            shift,
            limit,
        ) {
            Ok((all, Some(next))) => Ok((all, Some(before.len() + next))),
            other => other,
        },
{
    let both = before + src;
    let b = before.len() as int;
    if i < src.len() {
        assert(both[b + i] == src[i]);
        lemma_field_behind(src[i] / 16, before, src, i + 1);
        lemma_field_length(src[i] / 16, src, i + 1);
        if let Some((literals, j)) = field_length(src[i] / 16, src, i + 1) {
            let k = j + literals;
            if k <= src.len() {
                assert(both.subrange(b + j, b + k) =~= src.subrange(j, k));
                if k + 2 <= src.len() {
                    assert(both.subrange(b + k, b + k + 2) =~= src.subrange(k, k + 2));
                    lemma_field_behind(src[i] % 16, before, src, k + 2);
                }
            }
        }
    }
}

/// What a block decodes to from a sequence on has nothing to do with the bytes
/// before that sequence.
pub proof fn law_decode_behind(
    before: Seq<u8>,
    src: Seq<u8>,
    i: int,
    out: Seq<u8>,
    shift: int,
    limit: int,
)
    requires
        0 <= i,
    ensures
        decode_from(before + src, before.len() + i, out, shift, limit) == decode_from(
            src,
            i,
            out,
            shift,
            limit,
        ),
    decreases src.len() - i,
{
    lemma_sequence_behind(before, src, i, out, shift, limit);
    lemma_decode_sequence(src, i, out, shift, limit);
    if let Ok((all, Some(next))) = decode_sequence(src, i, out, shift, limit) {
        law_decode_behind(before, src, next, all, shift, limit);
    }
}

/// The start of a sequence is taken apart into what it was put together from.
proof fn lemma_literals(literals: Seq<u8>, lower: int, rest: Seq<u8>)
    requires
        0 <= lower < 16,
    ensures
        ({
            let n = literals.len() as int;
            let src = literals_bytes(literals, lower) + rest;
            let j = 1 + length_bytes(n).len();
            &&& src.len() == j + n + rest.len()
            &&& src[0] / 16 == half_of(n)
            &&& src[0] % 16 == lower
            &&& field_length(src[0] / 16, src, 1) == Some((n, j as int))
            &&& src.subrange(j as int, j + n) == literals
            &&& src.skip(j + n) == rest
        }),
{
    let n = literals.len() as int;
    let src = literals_bytes(literals, lower) + rest;
    let first = token(half_of(n), lower);
    let j = 1 + length_bytes(n).len();
    assert(src[0] == 16 * half_of(n) + lower);
    law_length_is_read(n, first, literals + rest);
    assert(first + length_bytes(n) + (literals + rest) =~= src);
    assert(src.subrange(j as int, j + n) =~= literals);
    assert(src.skip(j + n) =~= rest);
}

/// A match is taken apart into what it was put together from.
proof fn lemma_match(sequence: Sequence, rest: Seq<u8>)
    requires
        0 <= sequence.offset <= 65535,
        4 <= sequence.length,
    ensures
        ({
            let src = sequence.bytes() + rest;
            let n = sequence.literals.len() as int;
            let m = sequence.length - 4;
            let j = (1 + length_bytes(n).len()) as int;
            let k = j + n;
            &&& k + 2 <= src.len()
            &&& field_length(src[0] / 16, src, 1) == Some((n, j))
            &&& src.subrange(j, k) == sequence.literals
            &&& le_value(src.subrange(k, k + 2)) == sequence.offset
            &&& field_length(src[0] % 16, src, k + 2) == Some((m, sequence.bytes().len() as int))
        }),
{
    let src = sequence.bytes() + rest;
    let n = sequence.literals.len() as int;
    let m = sequence.length - 4;
    let tail = offset_bytes(sequence.offset) + length_bytes(m) + rest;
    lemma_literals(sequence.literals, half_of(m), tail);
    assert(src =~= literals_bytes(sequence.literals, half_of(m)) + tail);
    let k = 1 + length_bytes(n).len() + n;
    assert(src.subrange(k, k + 2) =~= tail.take(2)) by {
        assert(src.subrange(k, k + 2) =~= src.skip(k).take(2));
    }
    assert(tail.take(2) =~= offset_bytes(sequence.offset));
    law_le_value_2(offset_bytes(sequence.offset));
    let head = literals_bytes(sequence.literals, half_of(m)) + offset_bytes(sequence.offset);
    law_length_is_read(m, head, rest);
    assert(head + length_bytes(m) + rest =~= src);
}

/// A sequence that is written down is decoded to what it stands for.
#[verifier::rlimit(30)]
pub proof fn law_sequence_is_decoded(
    sequence: Sequence,
    rest: Seq<u8>,
    out: Seq<u8>,
    shift: int,
    limit: int,
)
    requires
        sequence.fits(out),
        sequence.after(out).len() + shift <= limit,
    ensures
        decode_sequence(sequence.bytes() + rest, 0, out, shift, limit) == Ok::<
            (Seq<u8>, Option<int>),
            DecompressError,
        >((sequence.after(out), Some(sequence.bytes().len() as int))),
{
    let out1 = out + sequence.literals;
    lemma_match(sequence, rest);
    law_match_repeats(out1, sequence.offset, sequence.length);
    assert(with_match(out1, sequence.offset, sequence.length) =~= sequence.after(out));
}

proof fn lemma_after_all_grows(out: Seq<u8>, sequences: Seq<Sequence>)
    requires
        fit_all(out, sequences),
    ensures
        out.len() <= after_all(out, sequences).len(),
        after_all(out, sequences).take(out.len() as int) == out,
    decreases sequences.len(),
{
    if sequences.len() > 0 {
        let next = sequences[0].after(out);
        let all = after_all(out, sequences);
        lemma_after_all_grows(next, sequences.skip(1));
        assert(all.take(out.len() as int) =~= all.take(next.len() as int).take(out.len() as int));
        assert(next.take(out.len() as int) =~= out);
    } else {
        assert(out.take(out.len() as int) =~= out);
    }
}

/// Sequences that are written down are decoded one after the other, and then what
/// is behind them.
pub proof fn law_sequences_are_decoded(
    sequences: Seq<Sequence>,
    rest: Seq<u8>,
    out: Seq<u8>,
    shift: int,
    limit: int,
)
    requires
        fit_all(out, sequences),
        after_all(out, sequences).len() + shift <= limit,
    ensures
        decode_from(sequences_bytes(sequences) + rest, 0, out, shift, limit) == decode_from(
            rest,
            0,
            after_all(out, sequences),
            shift,
            limit,
        ),
    decreases sequences.len(),
{
    if sequences.len() == 0 {
        assert(sequences_bytes(sequences) + rest =~= rest);
    } else {
        let first = sequences[0].bytes();
        let later = sequences.skip(1);
        let tail = sequences_bytes(later) + rest;
        let next = sequences[0].after(out);
        lemma_joined(first, sequences_bytes(later), rest);
        lemma_after_all_grows(next, later);
        law_sequence_is_decoded(sequences[0], tail, out, shift, limit);
        law_decode_behind(first, tail, 0, next, shift, limit);
        law_sequences_are_decoded(later, rest, next, shift, limit);
    }
}

proof fn lemma_last_is_decoded(
    last: Seq<u8>,
    lower: int,
    out: Seq<u8>,
    shift: int,
    limit: int,
)
    requires
        0 <= lower < 16,
        out.len() + last.len() + shift <= limit,
    ensures
        decode_from(literals_bytes(last, lower), 0, out, shift, limit) == Ok::<
            Seq<u8>,
            DecompressError,
        >(out + last),
{
    lemma_literals(last, lower, Seq::empty());
    assert(literals_bytes(last, lower) + Seq::empty() =~= literals_bytes(last, lower));
}

/// A block that is written down is decoded to what it stands for, wherever the
/// output goes, as long as there is room for it.
pub proof fn law_block_is_decoded(block: Block, history: Seq<u8>, pos: int, limit: int)
    requires
        block.fits(history),
        pos + block.data(history).len() <= limit,
    ensures
        decode_block(block.bytes(), history, pos, limit) == Ok::<Seq<u8>, DecompressError>(
            block.data(history),
        ),
{
    let shift = pos - history.len();
    lemma_after_all_grows(history, block.sequences);
    law_sequences_are_decoded(
        block.sequences,
        literals_bytes(block.last, block.lower),
        history,
        shift,
        limit,
    );
    lemma_last_is_decoded(
        block.last,
        block.lower,
        after_all(history, block.sequences),
        shift,
        limit,
    );
}

/// The sequence that is decoded first, where another one follows it.
#[verifier::rlimit(30)]
proof fn lemma_first_sequence(src: Seq<u8>, out: Seq<u8>, shift: int, limit: int) -> (sequence:
    Sequence)
    requires
        decode_sequence(src, 0, out, shift, limit) matches Ok((_, next)) && next is Some,
    ensures
        sequence.fits(out),
        ({
            let (all, next) = decode_sequence(src, 0, out, shift, limit).unwrap();
            &&& next.unwrap() == sequence.bytes().len()
            &&& sequence.bytes().len() <= src.len()
            &&& src.take(sequence.bytes().len() as int) == sequence.bytes()
            &&& all == sequence.after(out)
        }),
{
    let (all, next) = decode_sequence(src, 0, out, shift, limit).unwrap();
    law_length_is_written(src[0] / 16, src, 1);
    lemma_field_length(src[0] / 16, src, 1);
    let (n, j) = field_length(src[0] / 16, src, 1).unwrap();
    let k = j + n;
    law_length_is_written(src[0] % 16, src, k + 2);
    lemma_field_length(src[0] % 16, src, k + 2);
    let (m, end) = field_length(src[0] % 16, src, k + 2).unwrap();
    let offset = le_value(src.subrange(k, k + 2)) as int;
    law_le_value_2(src.subrange(k, k + 2));
    let sequence = Sequence { literals: src.subrange(j, k), offset, length: 4 + m };
    let out1 = out + sequence.literals;
    assert(token(half_of(n), half_of(m)) =~= src.take(1));
    assert(offset_bytes(offset) =~= src.subrange(k, k + 2));
    assert(sequence.bytes() =~= src.take(end)) by {
        assert(src.take(end) =~= src.take(1) + src.subrange(1, j) + src.subrange(j, k)
            + src.subrange(k, k + 2) + src.subrange(k + 2, end));
    }
    law_match_repeats(out1, offset, 4 + m);
    assert(with_match(out1, offset, 4 + m) =~= sequence.after(out));
    sequence
}

/// The literals that are decoded last.
#[verifier::rlimit(30)]
proof fn lemma_last_literals(src: Seq<u8>, out: Seq<u8>, shift: int, limit: int) -> (block: Block)
    requires
        decode_sequence(src, 0, out, shift, limit) matches Ok((_, next)) && next is None,
    ensures
        block.fits(out),
        block.bytes() == src,
        decode_sequence(src, 0, out, shift, limit).unwrap().0 == block.after(out),
{
    law_length_is_written(src[0] / 16, src, 1);
    lemma_field_length(src[0] / 16, src, 1);
    let (n, j) = field_length(src[0] / 16, src, 1).unwrap();
    let k = j + n;
    assert(k == src.len()) by {
        if k + 2 <= src.len() {
            assert(decode_match(src, src[0] % 16, k, out + src.subrange(j, k), shift, limit)
                matches Ok((_, next)) ==> next is Some);
        }
    }
    let block = Block {
        sequences: Seq::empty(),
        last: src.subrange(j, k),
        lower: (src[0] % 16) as int,
    };
    assert(token(half_of(n), block.lower) =~= src.take(1));
    assert(block.bytes() =~= src) by {
        assert(src =~= src.take(1) + src.subrange(1, j) + src.subrange(j, k));
    }
    block
}

proof fn lemma_decode_on(
    src: Seq<u8>,
    out: Seq<u8>,
    shift: int,
    limit: int,
    all: Seq<u8>,
    next: int,
)
    requires
        decode_sequence(src, 0, out, shift, limit) == Ok::<
            (Seq<u8>, Option<int>),
            DecompressError,
        >((all, Some(next))),
    ensures
        0 < next <= src.len(),
        decode_from(src, 0, out, shift, limit) == decode_from(src.skip(next), 0, all, shift, limit),
{
    lemma_decode_sequence(src, 0, out, shift, limit);
    assert(src =~= src.take(next) + src.skip(next));
    law_decode_behind(src.take(next), src.skip(next), 0, all, shift, limit);
}

proof fn lemma_prepended(sequence: Sequence, later: Block, out: Seq<u8>) -> (block: Block)
    requires
        sequence.fits(out),
        later.fits(sequence.after(out)),
    ensures
        block.fits(out),
        block.bytes() == sequence.bytes() + later.bytes(),
        block.after(out) == later.after(sequence.after(out)),
{
    let block = Block { sequences: seq![sequence] + later.sequences, ..later };
    assert(block.sequences.skip(1) =~= later.sequences);
    lemma_joined(
        sequence.bytes(),
        sequences_bytes(later.sequences),
        literals_bytes(later.last, later.lower),
    );
    block
}

#[verifier::rlimit(30)]
proof fn lemma_decoded_is_written(src: Seq<u8>, out: Seq<u8>, shift: int, limit: int) -> (block:
    Block)
    requires
        decode_from(src, 0, out, shift, limit) is Ok,
    ensures
        block.fits(out),
        block.bytes() == src,
        decode_from(src, 0, out, shift, limit).unwrap() == block.after(out),
    decreases src.len(),
{
    let result = decode_sequence(src, 0, out, shift, limit);
    if result matches Ok((_, Some(_))) {
        let (all, next) = (result.unwrap().0, result.unwrap().1.unwrap());
        let sequence = lemma_first_sequence(src, out, shift, limit);
        lemma_decode_on(src, out, shift, limit, all, next);
        let later = lemma_decoded_is_written(src.skip(next), all, shift, limit);
        assert(src =~= src.take(next) + src.skip(next));
        lemma_prepended(sequence, later, out)
    } else {
        lemma_last_literals(src, out, shift, limit)
    }
}

/// Nothing but blocks is decoded: bytes that are decoded are a block, written
/// down, that refers to nothing but what is there, and what comes out is what it
/// stands for.
pub proof fn law_decoded_is_a_block(src: Seq<u8>, history: Seq<u8>, pos: int, limit: int) -> (block:
    Block)
    requires
        decode_block(src, history, pos, limit) is Ok,
    ensures
        block.fits(history),
        block.bytes() == src,
        decode_block(src, history, pos, limit) == Ok::<Seq<u8>, DecompressError>(
            block.data(history),
        ),
        pos + block.data(history).len() <= limit,
{
    law_decode_appends(src, 0, history, pos - history.len(), limit);
    lemma_decoded_is_written(src, history, pos - history.len(), limit)
}

/// Where output stands behind the sequences, if it starts at `pos`.
pub open spec fn end_of(history: Seq<u8>, sequences: Seq<Sequence>, pos: int) -> int {
    pos + after_all(history, sequences).len() - history.len()
}

/// Whether there are such sequences behind `history`, and room for them.
pub open spec fn have_room(
    history: Seq<u8>,
    sequences: Seq<Sequence>,
    pos: int,
    limit: int,
) -> bool {
    &&& fit_all(history, sequences)
    &&& end_of(history, sequences, pos) <= limit
}

/// Sequences, and then bytes that are refused.
proof fn lemma_refused_behind(
    sequences: Seq<Sequence>,
    tail: Seq<u8>,
    history: Seq<u8>,
    pos: int,
    limit: int,
    e: DecompressError,
)
    requires
        have_room(history, sequences, pos, limit),
        decode_sequence(
            tail,
            0,
            after_all(history, sequences),
            pos - history.len(),
            limit,
        ) == Err::<(Seq<u8>, Option<int>), DecompressError>(e),
    ensures
        decode_block(sequences_bytes(sequences) + tail, history, pos, limit) == Err::<
            Seq<u8>,
            DecompressError,
        >(e),
{
    law_sequences_are_decoded(sequences, tail, history, pos - history.len(), limit);
}

/// A block that ends behind a match, or before it starts, is refused: a byte is
/// missing.
pub proof fn law_missing_end(sequences: Seq<Sequence>, history: Seq<u8>, pos: int, limit: int)
    requires
        have_room(history, sequences, pos, limit),
    ensures
        decode_block(sequences_bytes(sequences), history, pos, limit) == Err::<
            Seq<u8>,
            DecompressError,
        >(DecompressError::ExpectedAnotherByte),
{
    assert(sequences_bytes(sequences) + Seq::empty() =~= sequences_bytes(sequences));
    lemma_refused_behind(
        sequences,
        Seq::empty(),
        history,
        pos,
        limit,
        DecompressError::ExpectedAnotherByte,
    );
}

/// A block that ends within the length of literals is refused: a byte is missing.
pub proof fn law_missing_length(
    sequences: Seq<Sequence>,
    lower: int,
    n: int,
    history: Seq<u8>,
    pos: int,
    limit: int,
)
    requires
        have_room(history, sequences, pos, limit),
        0 <= lower < 16,
        0 <= n,
    ensures
        decode_block(
            sequences_bytes(sequences) + (token(15, lower) + repeated(255, n)),
            history,
            pos,
            limit,
        ) == Err::<Seq<u8>, DecompressError>(DecompressError::ExpectedAnotherByte),
{
    let tail = token(15, lower) + repeated(255, n);
    assert(tail[0] == 240 + lower);
    law_length_is_missing(tail[0] / 16, tail, 1);
    lemma_refused_behind(
        sequences,
        tail,
        history,
        pos,
        limit,
        DecompressError::ExpectedAnotherByte,
    );
}

/// A block that ends within literals is refused: they are out of bounds.
pub proof fn law_missing_literals(
    sequences: Seq<Sequence>,
    lower: int,
    n: int,
    part: Seq<u8>,
    history: Seq<u8>,
    pos: int,
    limit: int,
)
    requires
        have_room(history, sequences, pos, limit),
        0 <= lower < 16,
        part.len() < n,
    ensures
        decode_block(
            sequences_bytes(sequences) + (token(half_of(n), lower) + length_bytes(n) + part),
            history,
            pos,
            limit,
        ) == Err::<Seq<u8>, DecompressError>(DecompressError::LiteralOutOfBounds),
{
    let tail = token(half_of(n), lower) + length_bytes(n) + part;
    assert(tail[0] == 16 * half_of(n) + lower);
    law_length_is_read(n, token(half_of(n), lower), part);
    lemma_refused_behind(
        sequences,
        tail,
        history,
        pos,
        limit,
        DecompressError::LiteralOutOfBounds,
    );
}

/// Literals for which there is no room are refused, whatever follows them; the
/// error says where the output would have ended and where it has to.
pub proof fn law_no_room_for_literals(
    sequences: Seq<Sequence>,
    literals: Seq<u8>,
    lower: int,
    rest: Seq<u8>,
    history: Seq<u8>,
    pos: int,
    limit: int,
)
    requires
        have_room(history, sequences, pos, limit),
        0 <= lower < 16,
        0 <= limit < end_of(history, sequences, pos) + literals.len() <= usize::MAX,
    ensures
        decode_block(
            sequences_bytes(sequences) + (literals_bytes(literals, lower) + rest),
            history,
            pos,
            limit,
        ) matches Err(DecompressError::OutputTooSmall { expected_size, actual_size })
            && expected_size == end_of(history, sequences, pos) + literals.len() && actual_size
            == limit,
{
    lemma_literals(literals, lower, rest);
    lemma_refused_behind(
        sequences,
        literals_bytes(literals, lower) + rest,
        history,
        pos,
        limit,
        DecompressError::OutputTooSmall {
            expected_size: (end_of(history, sequences, pos) + literals.len()) as usize,
            actual_size: limit as usize,
        },
    );
}

/// A block that ends within an offset is refused: a byte is missing.
pub proof fn law_missing_offset(
    sequences: Seq<Sequence>,
    literals: Seq<u8>,
    lower: int,
    byte: u8,
    history: Seq<u8>,
    pos: int,
    limit: int,
)
    requires
        have_room(history, sequences, pos, limit),
        0 <= lower < 16,
        end_of(history, sequences, pos) + literals.len() <= limit,
    ensures
        decode_block(
            sequences_bytes(sequences) + (literals_bytes(literals, lower) + seq![byte]),
            history,
            pos,
            limit,
        ) == Err::<Seq<u8>, DecompressError>(DecompressError::ExpectedAnotherByte),
{
    lemma_literals(literals, lower, seq![byte]);
    lemma_refused_behind(
        sequences,
        literals_bytes(literals, lower) + seq![byte],
        history,
        pos,
        limit,
        DecompressError::ExpectedAnotherByte,
    );
}

/// A block that ends within the length of a match is refused: a byte is missing.
pub proof fn law_missing_match_length(
    sequences: Seq<Sequence>,
    literals: Seq<u8>,
    offset: int,
    n: int,
    history: Seq<u8>,
    pos: int,
    limit: int,
)
    requires
        have_room(history, sequences, pos, limit),
        end_of(history, sequences, pos) + literals.len() <= limit,
        0 <= offset <= 65535,
        0 <= n,
    ensures
        decode_block(
            sequences_bytes(sequences) + (literals_bytes(literals, 15) + (offset_bytes(offset)
                + repeated(255, n))),
            history,
            pos,
            limit,
        ) == Err::<Seq<u8>, DecompressError>(DecompressError::ExpectedAnotherByte),
{
    let rest = offset_bytes(offset) + repeated(255, n);
    let tail = literals_bytes(literals, 15) + rest;
    lemma_literals(literals, 15, rest);
    let k = (1 + length_bytes(literals.len() as int).len() + literals.len()) as int;
    assert forall|j: int| k + 2 <= j < tail.len() implies tail[j] == 255 by {
        assert(tail[j] == tail.skip(k)[j - k]);
    }
    law_length_is_missing(15, tail, k + 2);
    lemma_refused_behind(
        sequences,
        tail,
        history,
        pos,
        limit,
        DecompressError::ExpectedAnotherByte,
    );
}

/// A match for which there is no room is refused, whatever follows it; the error
/// says where the output would have ended and where it has to.
pub proof fn law_no_room_for_match(
    sequences: Seq<Sequence>,
    sequence: Sequence,
    rest: Seq<u8>,
    history: Seq<u8>,
    pos: int,
    limit: int,
)
    requires
        have_room(history, sequences, pos, limit),
        0 <= sequence.offset <= 65535,
        4 <= sequence.length,
        end_of(history, sequences, pos) + sequence.literals.len() <= limit,
        0 <= limit < end_of(history, sequences, pos) + sequence.literals.len() + sequence.length
            <= usize::MAX,
    ensures
        decode_block(
            sequences_bytes(sequences) + (sequence.bytes() + rest),
            history,
            pos,
            limit,
        ) matches Err(DecompressError::OutputTooSmall { expected_size, actual_size })
            && expected_size == end_of(history, sequences, pos) + sequence.literals.len()
            + sequence.length && actual_size == limit,
{
    lemma_match(sequence, rest);
    lemma_refused_behind(
        sequences,
        sequence.bytes() + rest,
        history,
        pos,
        limit,
        DecompressError::OutputTooSmall {
            expected_size: (end_of(history, sequences, pos) + sequence.literals.len()
                + sequence.length) as usize,
            actual_size: limit as usize,
        },
    );
}

/// An offset of zero, and one that reaches back further than anything was output,
/// is refused, whatever follows the match.
pub proof fn law_offset_out_of_bounds(
    sequences: Seq<Sequence>,
    sequence: Sequence,
    rest: Seq<u8>,
    history: Seq<u8>,
    pos: int,
    limit: int,
)
    requires
        have_room(history, sequences, pos, limit),
        0 <= sequence.offset <= 65535,
        4 <= sequence.length,
        end_of(history, sequences, pos) + sequence.literals.len() + sequence.length <= limit,
        sequence.offset == 0 || after_all(history, sequences).len() + sequence.literals.len()
            < sequence.offset,
    ensures
        decode_block(
            sequences_bytes(sequences) + (sequence.bytes() + rest),
            history,
            pos,
            limit,
        ) == Err::<Seq<u8>, DecompressError>(DecompressError::OffsetOutOfBounds),
{
    lemma_match(sequence, rest);
    lemma_refused_behind(
        sequences,
        sequence.bytes() + rest,
        history,
        pos,
        limit,
        DecompressError::OffsetOutOfBounds,
    );
}

} // verus!
