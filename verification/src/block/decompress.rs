//! Decompression of one block.

use crate::block::{DecompressError, MATCH_LENGTH_MASK, MAX_DISTANCE, MINMATCH};
use crate::bytes::{le_value, read_u16};
use vstd::prelude::*;

verus! {

/// The length that the bytes from index `i` on spell: each byte adds its value,
/// and the first that is not 255 is the last. With it goes the index of what
/// follows. `None` where the input ends first.
pub open spec fn extra_length(src: Seq<u8>, i: int) -> Option<(int, int)>
    decreases src.len() - i,
{
    if i >= src.len() {
        None
    } else if src[i] != 255 {
        Some((src[i] as int, i + 1))
    } else {
        match extra_length(src, i + 1) {
            Some((n, j)) => Some((255 + n, j)),
            None => None,
        }
    }
}

/// The length that half a token stands for, the bytes from index `i` on being
/// those that extend it, and the index of what follows.
pub open spec fn field_length(half: u8, src: Seq<u8>, i: int) -> Option<(int, int)> {
    if half == MATCH_LENGTH_MASK {
        match extra_length(src, i) {
            Some((n, j)) => Some((MATCH_LENGTH_MASK + n, j)),
            None => None,
        }
    } else {
        Some((half as int, i))
    }
}

proof fn lemma_extra_length(src: Seq<u8>, i: int)
    ensures
        extra_length(src, i) matches Some((n, j)) ==> {
            &&& i < j <= src.len()
            &&& 0 <= n <= 255 * (j - i)
        },
    decreases src.len() - i,
{
    if i < src.len() && src[i] == 255 {
        lemma_extra_length(src, i + 1);
    }
}

/// A length field ends within the input and is bounded by the bytes that it takes.
pub proof fn lemma_field_length(half: u8, src: Seq<u8>, i: int)
    requires
        i <= src.len(),
    ensures
        field_length(half, src, i) matches Some((n, j)) ==> {
            &&& i <= j <= src.len()
            &&& 0 <= n <= half + 255 * (j - i)
        },
{
    lemma_extra_length(src, i);
}

/// `out` after `n` bytes were appended one by one, each a copy of the byte that
/// stood `offset` bytes before the end.
pub open spec fn with_match(out: Seq<u8>, offset: int, n: int) -> Seq<u8>
    decreases n,
{
    if n <= 0 {
        out
    } else {
        with_match(out.push(out[out.len() - offset]), offset, n - 1)
    }
}

/// Decodes the sequence at index `i` of `src`, given that `out` has been output.
/// The output buffer ends at `limit`, and the end of `out` stands at
/// `out.len() + shift` in it. The result is the output so far and the index of
/// the next sequence, or `None` behind the last.
pub open spec fn decode_sequence(
    src: Seq<u8>,
    i: int,
    out: Seq<u8>,
    shift: int,
    limit: int,
) -> Result<(Seq<u8>, Option<int>), DecompressError> {
    if i < 0 || i >= src.len() {
        Err(DecompressError::ExpectedAnotherByte)
    } else {
        match field_length(src[i] / 16, src, i + 1) {
            None => Err(DecompressError::ExpectedAnotherByte),
            Some((literals, j)) => {
                let k = j + literals;
                let end = out.len() + shift + literals;
                if k > src.len() {
                    Err(DecompressError::LiteralOutOfBounds)
                } else if end > limit {
                    Err(output_too_small(end, limit))
                } else if k == src.len() {
                    Ok((out + src.subrange(j, k), None))
                } else if k + 2 > src.len() {
                    Err(DecompressError::ExpectedAnotherByte)
                } else {
                    decode_match(src, src[i] % 16, k, out + src.subrange(j, k), shift, limit)
                }
            },
        }
    }
}

/// Decodes the match whose offset stands at index `k` of `src`, `half` being the
/// half of the token that is about its length.
pub open spec fn decode_match(
    src: Seq<u8>,
    half: u8,
    k: int,
    out: Seq<u8>,
    shift: int,
    limit: int,
) -> Result<(Seq<u8>, Option<int>), DecompressError> {
    let offset = le_value(src.subrange(k, k + 2)) as int;
    match field_length(half, src, k + 2) {
        None => Err(DecompressError::ExpectedAnotherByte),
        Some((extra, next)) => {
            let n = MINMATCH + extra;
            let end = out.len() + shift + n;
            if end > limit {
                Err(output_too_small(end, limit))
            } else if offset == 0 || offset > out.len() {
                Err(DecompressError::OffsetOutOfBounds)
            } else {
                Ok((with_match(out, offset, n), Some(next)))
            }
        },
    }
}

/// The error of output that would end at `end` in a buffer that ends at `limit`.
pub open spec fn output_too_small(end: int, limit: int) -> DecompressError {
    DecompressError::OutputTooSmall { expected_size: end as usize, actual_size: limit as usize }
}

/// A sequence ends within the input, and what it decodes to stands behind what
/// was there, within the limit.
pub proof fn lemma_decode_sequence(src: Seq<u8>, i: int, out: Seq<u8>, shift: int, limit: int)
    ensures
        decode_sequence(src, i, out, shift, limit) matches Ok((all, rest)) ==> {
            &&& out.len() <= all.len()
            &&& all.take(out.len() as int) == out
            &&& all.len() + shift <= limit
            &&& rest matches Some(next) ==> i < next <= src.len()
        },
{
    if 0 <= i < src.len() {
        lemma_field_length(src[i] / 16, src, i + 1);
        if let Some((literals, j)) = field_length(src[i] / 16, src, i + 1) {
            let k = j + literals;
            if k <= src.len() {
                let out1 = out + src.subrange(j, k);
                assert(out1.take(out.len() as int) =~= out);
                if k + 2 <= src.len() {
                    lemma_field_length(src[i] % 16, src, k + 2);
                    if let Ok((out2, _)) = decode_match(src, src[i] % 16, k, out1, shift, limit) {
                        let (extra, _) = field_length(src[i] % 16, src, k + 2).unwrap();
                        let offset = le_value(src.subrange(k, k + 2)) as int;
                        lemma_with_match(out1, offset, MINMATCH + extra);
                        assert(out2.take(out.len() as int) =~= out2.take(out1.len() as int).take(
                            out.len() as int,
                        ));
                    }
                }
            }
        }
    }
}

/// Decodes the sequences from index `i` of `src` on.
pub open spec fn decode_from(
    src: Seq<u8>,
    i: int,
    out: Seq<u8>,
    shift: int,
    limit: int,
) -> Result<Seq<u8>, DecompressError>
    decreases src.len() - i,
{
    match decode_sequence(src, i, out, shift, limit) {
        Err(e) => Err(e),
        Ok((all, None)) => Ok(all),
        Ok((all, Some(next))) => {
            proof {
                lemma_decode_sequence(src, i, out, shift, limit);
            }
            decode_from(src, next, all, shift, limit)
        },
    }
}

/// The block `src` decoded: what it appends to `history`, which ends at `pos` in
/// an output buffer that ends at `limit`.
pub open spec fn decode_block(src: Seq<u8>, history: Seq<u8>, pos: int, limit: int) -> Result<
    Seq<u8>,
    DecompressError,
> {
    match decode_from(src, 0, history, pos - history.len(), limit) {
        Ok(out) => Ok(out.skip(history.len() as int)),
        Err(e) => Err(e),
    }
}

proof fn lemma_with_match(out: Seq<u8>, offset: int, n: int)
    requires
        1 <= offset <= out.len(),
        0 <= n,
    ensures
        with_match(out, offset, n).len() == out.len() + n,
        with_match(out, offset, n).take(out.len() as int) == out,
    decreases n,
{
    if n > 0 {
        let longer = out.push(out[out.len() - offset]);
        lemma_with_match(longer, offset, n - 1);
        assert(with_match(longer, offset, n - 1).take(out.len() as int) =~= with_match(
            longer,
            offset,
            n - 1,
        ).take(longer.len() as int).take(out.len() as int));
        assert(longer.take(out.len() as int) =~= out);
    } else {
        assert(out.take(out.len() as int) =~= out);
    }
}

/// One more byte of a match, at the end.
pub proof fn lemma_with_match_step(out: Seq<u8>, offset: int, n: int)
    requires
        1 <= offset <= out.len(),
        0 <= n,
    ensures
        ({
            let m = with_match(out, offset, n);
            with_match(out, offset, n + 1) == m.push(m[m.len() - offset])
        }),
    decreases n,
{
    if n > 0 {
        let longer = out.push(out[out.len() - offset]);
        lemma_with_match_step(longer, offset, n - 1);
    } else {
        reveal_with_fuel(with_match, 2);
    }
}

proof fn lemma_with_match_suffix(out: Seq<u8>, cut: int, offset: int, n: int)
    requires
        0 <= cut,
        1 <= offset <= out.len() - cut,
        0 <= n,
    ensures
        with_match(out.skip(cut), offset, n) == with_match(out, offset, n).skip(cut),
    decreases n,
{
    if n > 0 {
        let longer = out.push(out[out.len() - offset]);
        lemma_with_match_suffix(longer, cut, offset, n - 1);
        assert(longer.skip(cut) =~= out.skip(cut).push(out.skip(cut)[out.len() - cut - offset]));
    }
}

/// What is decoded stands behind what was there, within the limit.
pub proof fn law_decode_appends(src: Seq<u8>, i: int, out: Seq<u8>, shift: int, limit: int)
    ensures
        decode_from(src, i, out, shift, limit) matches Ok(all) ==> {
            &&& out.len() <= all.len()
            &&& all.take(out.len() as int) == out
            &&& all.len() + shift <= limit
        },
    decreases src.len() - i,
{
    lemma_decode_sequence(src, i, out, shift, limit);
    if let Ok((out1, Some(next))) = decode_sequence(src, i, out, shift, limit) {
        law_decode_appends(src, next, out1, shift, limit);
        if let Ok(all) = decode_from(src, next, out1, shift, limit) {
            assert(all.take(out.len() as int) =~= all.take(out1.len() as int).take(
                out.len() as int,
            ));
        }
    }
}

proof fn lemma_sequence_window(
    src: Seq<u8>,
    i: int,
    out: Seq<u8>,
    cut: int,
    shift: int,
    limit: int,
)
    requires
        0 <= cut,
        MAX_DISTANCE <= out.len() - cut,
    ensures
        decode_sequence(src, i, out.skip(cut), shift + cut, limit) == match decode_sequence(
            src,
            i,
            out,
            shift,
            limit,
        ) {
            Ok((all, rest)) => Ok((all.skip(cut), rest)),
            Err(e) => Err(e),
        },
{
    if 0 <= i < src.len() {
        lemma_field_length(src[i] / 16, src, i + 1);
        if let Some((literals, j)) = field_length(src[i] / 16, src, i + 1) {
            let k = j + literals;
            if k <= src.len() {
                let out1 = out + src.subrange(j, k);
                assert(out1.skip(cut) =~= out.skip(cut) + src.subrange(j, k));
                if k + 2 <= src.len() {
                    lemma_field_length(src[i] % 16, src, k + 2);
                    let offset = le_value(src.subrange(k, k + 2)) as int;
                    assert(offset <= MAX_DISTANCE) by {
                        reveal_with_fuel(le_value, 3);
                    }
                    if let Some((extra, _)) = field_length(src[i] % 16, src, k + 2) {
                        if 1 <= offset {
                            lemma_with_match_suffix(out1, cut, offset, MINMATCH + extra);
                        }
                    }
                }
            }
        }
    }
}

/// Nothing that lies further back than an offset can reach has any bearing on
/// what a block decodes to.
pub proof fn law_decode_window(
    src: Seq<u8>,
    i: int,
    out: Seq<u8>,
    cut: int,
    shift: int,
    limit: int,
)
    requires
        0 <= cut,
        cut == 0 || MAX_DISTANCE <= out.len() - cut,
    ensures
        decode_from(src, i, out.skip(cut), shift + cut, limit) == match decode_from(
            src,
            i,
            out,
            shift,
            limit,
        ) {
            Ok(all) => Ok(all.skip(cut)),
            Err(e) => Err(e),
        },
    decreases src.len() - i,
{
    if cut == 0 {
        assert(out.skip(cut) =~= out);
        if let Ok(all) = decode_from(src, i, out, shift, limit) {
            assert(all.skip(cut) =~= all);
        }
    } else {
        lemma_sequence_window(src, i, out, cut, shift, limit);
        lemma_decode_sequence(src, i, out, shift, limit);
        if let Ok((out1, Some(next))) = decode_sequence(src, i, out, shift, limit) {
            law_decode_window(src, next, out1, cut, shift, limit);
        }
    }
}

proof fn lemma_sequence_placement(
    src: Seq<u8>,
    i: int,
    out: Seq<u8>,
    shift: int,
    limit: int,
    other_shift: int,
    other_limit: int,
)
    ensures
        decode_sequence(src, i, out, shift, limit) matches Ok((all, _)) ==> all.len() + other_shift
            <= other_limit ==> decode_sequence(src, i, out, other_shift, other_limit)
            == decode_sequence(src, i, out, shift, limit),
{
    if 0 <= i < src.len() {
        lemma_field_length(src[i] / 16, src, i + 1);
        if let Some((literals, j)) = field_length(src[i] / 16, src, i + 1) {
            let k = j + literals;
            if k + 2 <= src.len() {
                let out1 = out + src.subrange(j, k);
                lemma_field_length(src[i] % 16, src, k + 2);
                if let Some((extra, _)) = field_length(src[i] % 16, src, k + 2) {
                    let offset = le_value(src.subrange(k, k + 2)) as int;
                    if 1 <= offset <= out1.len() {
                        lemma_with_match(out1, offset, MINMATCH + extra);
                    }
                }
            }
        }
    }
}

proof fn lemma_decode_placement(
    src: Seq<u8>,
    i: int,
    out: Seq<u8>,
    shift: int,
    limit: int,
    other_shift: int,
    other_limit: int,
)
    ensures
        decode_from(src, i, out, shift, limit) matches Ok(all) ==> all.len() + other_shift
            <= other_limit ==> decode_from(src, i, out, other_shift, other_limit)
            == decode_from(src, i, out, shift, limit),
    decreases src.len() - i,
{
    lemma_decode_sequence(src, i, out, shift, limit);
    lemma_sequence_placement(src, i, out, shift, limit, other_shift, other_limit);
    if let Ok((out1, Some(next))) = decode_sequence(src, i, out, shift, limit) {
        law_decode_appends(src, next, out1, shift, limit);
        lemma_decode_placement(src, next, out1, shift, limit, other_shift, other_limit);
    }
}

/// What a block decodes to does not depend on where its output goes, as long as
/// there is room for it.
pub proof fn law_block_placement(
    src: Seq<u8>,
    history: Seq<u8>,
    pos: int,
    limit: int,
    other_pos: int,
    other_limit: int,
)
    ensures
        decode_block(src, history, pos, limit) matches Ok(data) ==> {
            &&& pos + data.len() <= limit
            &&& other_pos + data.len() <= other_limit ==> decode_block(
                src,
                history,
                other_pos,
                other_limit,
            ) == Ok::<Seq<u8>, DecompressError>(data)
        },
{
    let n = history.len() as int;
    law_decode_appends(src, 0, history, pos - n, limit);
    lemma_decode_placement(src, 0, history, pos - n, limit, other_pos - n, other_limit);
}

/// `s` with the bytes from index `i` on replaced by `t`.
pub open spec fn overwrite(s: Seq<u8>, i: int, t: Seq<u8>) -> Seq<u8> {
    s.take(i) + t + s.skip(i + t.len())
}

/// Copies `data` into `dst` at index `pos`.
pub fn copy_into(dst: &mut Vec<u8>, pos: usize, data: &[u8])
    requires
        pos + data@.len() <= old(dst)@.len(),
    ensures
        final(dst)@ == overwrite(old(dst)@, pos as int, data@),
{
    let ghost before = dst@;
    let mut i: usize = 0;
    while i < data.len()
        invariant
            i <= data@.len(),
            before.len() == dst@.len(),
            pos + data@.len() <= dst@.len(),
            dst@ == overwrite(before, pos as int, data@.take(i as int)),
        decreases data@.len() - i,
    {
        assert(pos + i < dst.len());
        dst[pos + i] = data[i];
        i = i + 1;
        assert(dst@ =~= overwrite(before, pos as int, data@.take(i as int)));
    }
    assert(data@.take(i as int) =~= data@);
}

/// Reads the length that half a token stands for and the index behind it.
fn read_length(half: u8, src: &[u8], i: usize) -> (result: Option<(usize, usize)>)
    requires
        half <= MATCH_LENGTH_MASK,
        i <= src@.len(),
        255 * (src@.len() + 1) <= usize::MAX,
    ensures
        match field_length(half, src@, i as int) {
            Some((n, j)) => result == Some((n as usize, j as usize)) && n <= usize::MAX && j
                <= usize::MAX,
            None => result is None,
        },
{
    if half != MATCH_LENGTH_MASK {
        return Some((half as usize, i));
    }
    let mut n: usize = 0;
    let mut j: usize = i;
    while j < src.len() && src[j] == 255
        invariant
            i <= j <= src@.len(),
            n == 255 * (j - i),
            255 * (src@.len() + 1) <= usize::MAX,
            extra_length(src@, i as int) == match extra_length(src@, j as int) {
                Some((m, k)) => Some((n + m, k)),
                None => None,
            },
        decreases src@.len() - j,
    {
        n = n + 255;
        j = j + 1;
    }
    if j == src.len() {
        None
    } else {
        Some((MATCH_LENGTH_MASK as usize + n + src[j] as usize, j + 1))
    }
}

/// What a block may refer to when its output goes to index `pos` of `dst`: the
/// `dict_len` bytes at index `dict`, then all that stands before `pos`.
pub open spec fn history(dst: Seq<u8>, pos: int, dict: int, dict_len: int) -> Seq<u8> {
    dst.subrange(dict, dict + dict_len) + dst.take(pos)
}

/// Whether `a` and `b` differ at most from index `from` to index `to`.
pub open spec fn same_outside(a: Seq<u8>, b: Seq<u8>, from: int, to: int) -> bool {
    &&& a.len() == b.len()
    &&& forall|i: int| 0 <= i < from || to <= i < a.len() ==> a[i] == #[trigger] b[i]
}

/// Appends a match of `n` bytes at index `pos` of `dst`.
fn copy_match(
    dst: &mut Vec<u8>,
    pos: usize,
    offset: usize,
    n: usize,
    dict: usize,
    dict_len: usize,
)
    requires
        dict_len == 0 || pos + n <= dict,
        pos + n <= old(dst)@.len(),
        dict + dict_len <= old(dst)@.len(),
        1 <= offset <= dict_len + pos,
    ensures
        same_outside(old(dst)@, final(dst)@, pos as int, pos + n),
        history(final(dst)@, pos + n, dict as int, dict_len as int) == with_match(
            history(old(dst)@, pos as int, dict as int, dict_len as int),
            offset as int,
            n as int,
        ),
{
    let ghost start = history(dst@, pos as int, dict as int, dict_len as int);
    let mut i: usize = 0;
    while i < n
        invariant
            i <= n,
            start == history(old(dst)@, pos as int, dict as int, dict_len as int),
            dict_len == 0 || pos + n <= dict,
            pos + n <= dst@.len(),
            dict + dict_len <= dst@.len(),
            1 <= offset <= dict_len + pos,
            same_outside(old(dst)@, dst@, pos as int, pos + i),
            history(dst@, pos + i, dict as int, dict_len as int) == with_match(
                start,
                offset as int,
                i as int,
            ),
        decreases n - i,
    {
        assert(dst.len() == dst@.len());
        let end: usize = pos + i;
        let ghost h = history(dst@, end as int, dict as int, dict_len as int);
        let byte: u8 = if offset <= end {
            dst[end - offset]
        } else {
            dst[dict + (dict_len - (offset - end))]
        };
        assert(byte == h[h.len() - offset]);
        dst[end] = byte;
        proof {
            lemma_with_match_step(start, offset as int, i as int);
            assert(history(dst@, end + 1, dict as int, dict_len as int) =~= h.push(byte));
        }
        i = i + 1;
    }
}

/// Whether the lengths in a block of that size, and an end of output computed
/// from them, can be counted in a `usize`.
pub open spec fn countable(src_len: int, dst_len: int) -> bool {
    255 * (src_len + 1) + dst_len <= usize::MAX
}

/// Where the output goes, and what else may be referred to.
pub open spec fn placed(dst: Seq<u8>, pos: int, limit: int, dict: int, dict_len: int) -> bool {
    &&& 0 <= pos <= limit <= dst.len()
    &&& 0 <= dict
    &&& 0 <= dict_len
    &&& dict_len == 0 || limit <= dict
    &&& dict + dict_len <= dst.len()
}

/// Decompresses the sequence at index `i` of `input` into `output` at index
/// `pos`. The result is the end of the output and the index of the next
/// sequence, or `None` behind the last.
fn decompress_sequence(
    input: &[u8],
    i: usize,
    output: &mut Vec<u8>,
    pos: usize,
    limit: usize,
    dict: usize,
    dict_len: usize,
) -> (result: Result<(usize, Option<usize>), DecompressError>)
    requires
        i < input@.len(),
        placed(old(output)@, pos as int, limit as int, dict as int, dict_len as int),
        countable(input@.len() as int, old(output)@.len() as int),
    ensures
        match decode_sequence(
            input@,
            i as int,
            history(old(output)@, pos as int, dict as int, dict_len as int),
            -(dict_len as int),
            limit as int,
        ) {
            Ok((all, rest)) => {
                &&& result matches Ok((end, next))
                &&& pos <= end <= limit
                &&& same_outside(old(output)@, final(output)@, pos as int, end as int)
                &&& all == history(final(output)@, end as int, dict as int, dict_len as int)
                &&& match rest {
                    Some(n) => next == Some(n as usize) && i < n <= input@.len(),
                    None => next is None,
                }
            },
            Err(e) => {
                &&& result == Err::<(usize, Option<usize>), DecompressError>(e)
                &&& same_outside(old(output)@, final(output)@, pos as int, limit as int)
            },
        },
{
    let ghost out = history(output@, pos as int, dict as int, dict_len as int);
    assert(output.len() == output@.len());
    let token: u8 = input[i];
    proof {
        lemma_field_length(token / 16, input@, i + 1);
    }
    let (literals, j): (usize, usize) = match read_length(token / 16, input, i + 1) {
        Some((n, next)) => (n, next),
        None => {
            return Err(DecompressError::ExpectedAnotherByte);
        },
    };
    if literals > input.len() - j {
        return Err(DecompressError::LiteralOutOfBounds);
    }
    if literals > limit - pos {
        return Err(
            DecompressError::OutputTooSmall { expected_size: pos + literals, actual_size: limit },
        );
    }
    let k: usize = j + literals;
    let end: usize = pos + literals;
    copy_into(output, pos, vstd::slice::slice_subrange(input, j, k));
    let ghost out1 = out + input@.subrange(j as int, k as int);
    assert(out1 =~= history(output@, end as int, dict as int, dict_len as int));
    assert(same_outside(old(output)@, output@, pos as int, end as int));
    if k == input.len() {
        return Ok((end, None));
    }
    if input.len() - k < 2 {
        return Err(DecompressError::ExpectedAnotherByte);
    }
    let offset: usize = read_u16(input, k) as usize;
    proof {
        lemma_field_length(token % 16, input@, k + 2);
    }
    let (extra, next): (usize, usize) = match read_length(token % 16, input, k + 2) {
        Some((n, next)) => (n, next),
        None => {
            return Err(DecompressError::ExpectedAnotherByte);
        },
    };
    let n: usize = MINMATCH + extra;
    if n > limit - end {
        return Err(
            DecompressError::OutputTooSmall { expected_size: end + n, actual_size: limit },
        );
    }
    if offset == 0 || offset > dict_len + end {
        return Err(DecompressError::OffsetOutOfBounds);
    }
    copy_match(output, end, offset, n, dict, dict_len);
    Ok((end + n, Some(next)))
}

/// Decompresses the block `input` into `output` at index `pos`, up to index
/// `limit` at most. The block may refer to the `dict_len` bytes at index `dict`,
/// which lie behind the limit, and to what stands before `pos`.
fn decompress(
    input: &[u8],
    output: &mut Vec<u8>,
    pos: usize,
    limit: usize,
    dict: usize,
    dict_len: usize,
) -> (result: Result<usize, DecompressError>)
    requires
        placed(old(output)@, pos as int, limit as int, dict as int, dict_len as int),
        countable(input@.len() as int, old(output)@.len() as int),
    ensures
        match decode_block(
            input@,
            history(old(output)@, pos as int, dict as int, dict_len as int),
            pos as int,
            limit as int,
        ) {
            Ok(data) => {
                &&& result == Ok::<usize, DecompressError>(data.len() as usize)
                &&& pos + data.len() <= limit
                &&& final(output)@ == overwrite(old(output)@, pos as int, data)
            },
            Err(e) => {
                &&& result == Err::<usize, DecompressError>(e)
                &&& same_outside(old(output)@, final(output)@, pos as int, limit as int)
            },
        },
{
    let ghost first = history(output@, pos as int, dict as int, dict_len as int);
    let ghost shift = -(dict_len as int);
    let ghost all = decode_from(input@, 0, first, shift, limit as int);
    let mut i: usize = 0;
    let mut end: usize = pos;
    assert(pos - first.len() == shift);
    while i < input.len()
        invariant
            i <= input@.len(),
            pos <= end,
            placed(output@, end as int, limit as int, dict as int, dict_len as int),
            countable(input@.len() as int, output@.len() as int),
            first == history(old(output)@, pos as int, dict as int, dict_len as int),
            pos - first.len() == shift,
            shift == -(dict_len as int),
            all == decode_from(input@, 0, first, shift, limit as int),
            all == decode_from(
                input@,
                i as int,
                history(output@, end as int, dict as int, dict_len as int),
                shift,
                limit as int,
            ),
            same_outside(old(output)@, output@, pos as int, end as int),
        decreases input@.len() - i,
    {
        match decompress_sequence(input, i, output, end, limit, dict, dict_len) {
            Err(e) => {
                return Err(e);
            },
            Ok((behind, None)) => {
                proof {
                    let out = history(output@, behind as int, dict as int, dict_len as int);
                    let data = out.skip(first.len() as int);
                    assert(data =~= output@.subrange(pos as int, behind as int));
                    assert(output@ =~= overwrite(old(output)@, pos as int, data));
                }
                return Ok(behind - pos);
            },
            Ok((behind, Some(next))) => {
                end = behind;
                i = next;
            },
        }
    }
    Err(DecompressError::ExpectedAnotherByte)
}

/// Decompresses the block `input` into `output` at index `pos`. The block may
/// refer to all that stands before that index.
pub fn decompress_into(input: &[u8], output: &mut Vec<u8>, pos: usize) -> (result: Result<
    usize,
    DecompressError,
>)
    requires
        pos <= old(output)@.len(),
        countable(input@.len() as int, old(output)@.len() as int),
    ensures
        match decode_block(
            input@,
            old(output)@.take(pos as int),
            pos as int,
            old(output)@.len() as int,
        ) {
            Ok(data) => {
                &&& result == Ok::<usize, DecompressError>(data.len() as usize)
                &&& pos + data.len() <= old(output)@.len()
                &&& final(output)@ == overwrite(old(output)@, pos as int, data)
            },
            Err(e) => {
                &&& result == Err::<usize, DecompressError>(e)
                &&& final(output)@.len() == old(output)@.len()
                &&& final(output)@.take(pos as int) == old(output)@.take(pos as int)
            },
        },
{
    let limit: usize = output.len();
    assert(history(output@, pos as int, 0, 0) =~= output@.take(pos as int));
    let result = decompress(input, output, pos, limit, 0, 0);
    assert(result is Err ==> output@.take(pos as int) =~= old(output)@.take(pos as int));
    result
}

/// Decompresses the block `input` into `output` at index `pos`, below index
/// `dict`. The block may refer to the `dict_len` bytes at index `dict` as if
/// they came before the first byte of `output`.
pub fn decompress_into_with_dict(
    input: &[u8],
    output: &mut Vec<u8>,
    pos: usize,
    dict: usize,
    dict_len: usize,
) -> (result: Result<usize, DecompressError>)
    requires
        pos <= dict,
        dict + dict_len <= old(output)@.len(),
        countable(input@.len() as int, old(output)@.len() as int),
    ensures
        match decode_block(
            input@,
            history(old(output)@, pos as int, dict as int, dict_len as int),
            pos as int,
            dict as int,
        ) {
            Ok(data) => {
                &&& result == Ok::<usize, DecompressError>(data.len() as usize)
                &&& pos + data.len() <= dict
                &&& final(output)@ == overwrite(old(output)@, pos as int, data)
            },
            Err(e) => {
                &&& result == Err::<usize, DecompressError>(e)
                &&& same_outside(old(output)@, final(output)@, pos as int, dict as int)
            },
        },
{
    decompress(input, output, pos, dict, dict, dict_len)
}

/// Overwriting replaces the bytes from that index on, and no others.
pub proof fn law_overwrite(s: Seq<u8>, i: int, t: Seq<u8>)
    requires
        0 <= i,
        i + t.len() <= s.len(),
    ensures
        overwrite(s, i, t).len() == s.len(),
        forall|j: int|
            0 <= j < s.len() ==> #[trigger] overwrite(s, i, t)[j] == if i <= j < i + t.len() {
                t[j - i]
            } else {
                s[j]
            },
{
}

/// What a block may refer to: the byte that an offset reaches is the one that
/// stands so far before the output, or, where that lies before the front of the
/// buffer, the one that stands so far before the end of the dictionary.
pub proof fn law_history(dst: Seq<u8>, pos: int, dict: int, dict_len: int, offset: int)
    requires
        0 <= pos <= dst.len(),
        0 <= dict,
        0 <= dict_len,
        dict + dict_len <= dst.len(),
        1 <= offset <= pos + dict_len,
    ensures
        history(dst, pos, dict, dict_len).len() == pos + dict_len,
        history(dst, pos, dict, dict_len)[pos + dict_len - offset] == if offset <= pos {
            dst[pos - offset]
        } else {
            dst[dict + dict_len - (offset - pos)]
        },
{
}

/// What lies outside the range is the same.
pub proof fn law_same_outside(a: Seq<u8>, b: Seq<u8>, from: int, to: int)
    requires
        0 <= from <= to <= a.len(),
        same_outside(a, b, from, to),
    ensures
        a.len() == b.len(),
        a.take(from) == b.take(from),
        a.skip(to) == b.skip(to),
{
    assert(a.take(from) =~= b.take(from));
    assert(a.skip(to) =~= b.skip(to));
}

/// A block can be decompressed as long as the lengths in it can be counted: 255
/// for each byte of it and one more, and the length of the buffer.
pub proof fn law_countable(src_len: int, dst_len: int)
    ensures
        countable(src_len, dst_len) <==> 255 * src_len + 255 + dst_len <= usize::MAX,
{
}

} // verus!
