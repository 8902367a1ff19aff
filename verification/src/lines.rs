//! Lines of a file as chunks of bytes: what makes a list of chunks the lines
//! of the data that they join to.

use vstd::prelude::*;
use vstd::utf8::*;
use crate::replacer::{end_before, fits_at, fragments_fit, spliced, spliced_upto, FragmentView};
use crate::file_patcher::{
    all_text, chunk_end, chunks_from, is_text, joined, lemma_chunk_end_bounds,
    lemma_chunk_end_shift, lemma_chunks_join, lemma_joined_front,
};
use crate::text::{lemma_boundary_in_prefix, lemma_occurrence_on_boundaries};

verus! {

/// No byte of the sequence is a newline.
pub open spec fn no_newline(bytes: Seq<u8>) -> bool {
    forall|i: int| 0 <= i < bytes.len() ==> bytes[i] != 10u8
}

/// The chunk is not empty and holds no newline before its last byte.
pub open spec fn line_like(chunk: Seq<u8>) -> bool {
    &&& chunk.len() > 0
    &&& forall|i: int| 0 <= i < chunk.len() - 1 ==> chunk[i] != 10u8
}

/// Every chunk is like a line, and every chunk but the last ends with a
/// newline.
pub open spec fn lines_like(chunks: Seq<Seq<u8>>) -> bool {
    forall|i: int|
        0 <= i < chunks.len() ==> {
            &&& line_like(#[trigger] chunks[i])
            &&& (i < chunks.len() - 1 ==> chunks[i].last() == 10u8)
        }
}

/// A chunk ends behind the first newline, or at the end of the data.
pub proof fn lemma_chunk_end_is(data: Seq<u8>, from: int, end: int)
    requires
        0 <= from < end <= data.len(),
        forall|i: int| from <= i < end - 1 ==> data[i] != 10u8,
        data[end - 1] == 10u8 || end == data.len(),
    ensures
        chunk_end(data, from, 10u8) == end,
    decreases end - from,
{
    if data[from] != 10u8 {
        if from + 1 < end {
            lemma_chunk_end_is(data, from + 1, end);
        } else {
            assert(chunk_end(data, from + 1, 10u8) == from + 1);
        }
    }
}

/// A chunk holds no newline before its last byte, and ends with a newline
/// unless it ends the data.
pub proof fn lemma_chunk_end_props(data: Seq<u8>, from: int)
    requires
        0 <= from < data.len(),
    ensures
        from < chunk_end(data, from, 10u8) <= data.len(),
        forall|i: int| from <= i < chunk_end(data, from, 10u8) - 1 ==> data[i] != 10u8,
        chunk_end(data, from, 10u8) == data.len() || data[chunk_end(data, from, 10u8) - 1]
            == 10u8,
    decreases data.len() - from,
{
    lemma_chunk_end_bounds(data, from, 10u8);
    if data[from] != 10u8 {
        if from + 1 < data.len() {
            lemma_chunk_end_props(data, from + 1);
        } else {
            assert(chunk_end(data, from + 1, 10u8) == from + 1);
        }
    }
}

/// The chunks of the data are like lines.
pub proof fn lemma_chunks_are_lines(data: Seq<u8>, from: int)
    requires
        0 <= from <= data.len(),
    ensures
        lines_like(chunks_from(data, from, 10u8)),
    decreases data.len() - from,
{
    let chunks = chunks_from(data, from, 10u8);
    if from < data.len() {
        let end = chunk_end(data, from, 10u8);
        lemma_chunk_end_props(data, from);
        lemma_chunks_are_lines(data, end);
        let first = data.subrange(from, end);
        let rest = chunks_from(data, end, 10u8);
        assert(chunks == seq![first] + rest);
        assert forall|i: int| 0 <= i < chunks.len() implies {
            &&& line_like(#[trigger] chunks[i])
            &&& (i < chunks.len() - 1 ==> chunks[i].last() == 10u8)
        } by {
            if i == 0 {
                assert(chunks[0] == first);
                if chunks.len() > 1 {
                    assert(rest.len() > 0);
                    assert(end < data.len());
                }
            } else {
                assert(chunks[i] == rest[i - 1]);
            }
        }
    }
}

/// The chunks of what is left of the data from `base` on are the chunks of
/// the data from there on.
pub proof fn lemma_chunks_shift(data: Seq<u8>, base: int, from: int)
    requires
        0 <= base <= data.len(),
        0 <= from,
    ensures
        chunks_from(data.subrange(base, data.len() as int), from, 10u8) == chunks_from(
            data,
            base + from,
            10u8,
        ),
    decreases data.len() - base - from,
{
    let rest = data.subrange(base, data.len() as int);
    if from < rest.len() {
        lemma_chunk_end_shift(data, base, from, 10u8);
        lemma_chunk_end_bounds(rest, from, 10u8);
        let end = chunk_end(rest, from, 10u8);
        lemma_chunks_shift(data, base, end);
        assert(rest.subrange(from, end) =~= data.subrange(base + from, base + end));
    }
}

/// Chunks that are like lines are the chunks of what they join to.
pub proof fn lemma_chunks_of_joined(chunks: Seq<Seq<u8>>)
    requires
        lines_like(chunks),
    ensures
        chunks_from(joined(chunks, chunks.len() as int), 0, 10u8) == chunks,
    decreases chunks.len(),
{
    let data = joined(chunks, chunks.len() as int);
    if chunks.len() == 0 {
        assert(chunks_from(data, 0, 10u8) =~= chunks);
    } else {
        let first = chunks[0];
        let rest = chunks.drop_first();
        assert(chunks =~= seq![first] + rest);
        lemma_joined_front(first, rest, rest.len() as int);
        let tail = joined(rest, rest.len() as int);
        assert(data == first + tail);
        assert(line_like(chunks[0]));
        assert forall|i: int| 0 <= i < rest.len() implies {
            &&& line_like(#[trigger] rest[i])
            &&& (i < rest.len() - 1 ==> rest[i].last() == 10u8)
        } by {
            assert(rest[i] == chunks[i + 1]);
        }
        lemma_chunks_of_joined(rest);
        let end = first.len() as int;
        assert forall|i: int| 0 <= i < end - 1 implies data[i] != 10u8 by {
            assert(data[i] == first[i]);
        }
        if rest.len() > 0 {
            assert(chunks[0].last() == 10u8);
            assert(data[end - 1] == first[end - 1]);
        } else {
            assert(tail.len() == 0);
        }
        lemma_chunk_end_is(data, 0, end);
        assert(data.subrange(0, end) =~= first);
        assert(data.subrange(end, data.len() as int) =~= tail);
        lemma_chunks_shift(data, end, 0);
        assert(chunks_from(data, 0, 10u8) =~= seq![first] + rest);
    }
}

/// The fragments replace one text, which holds no newline, by another that
/// holds none.
pub open spec fn swaps_within_lines(
    frags: Seq<(FragmentView, FragmentView)>,
    old: Seq<char>,
    new: Seq<char>,
) -> bool {
    &&& no_newline(encode_utf8(old))
    &&& no_newline(encode_utf8(new))
    &&& forall|k: int|
        0 <= k < frags.len() ==> (#[trigger] frags[k]).0.text == old && frags[k].1.text == new
}

/// What such fragments make of a line holds no newline up to the end of any
/// of them, and none of them takes in the newline at the end of the line.
pub proof fn lemma_spliced_upto_no_newline(
    chunk: Seq<u8>,
    frags: Seq<(FragmentView, FragmentView)>,
    old: Seq<char>,
    new: Seq<char>,
    j: int,
)
    requires
        line_like(chunk),
        fragments_fit(chunk, frags),
        swaps_within_lines(frags, old, new),
        0 <= j <= frags.len(),
    ensures
        no_newline(spliced_upto(chunk, frags, j)),
        0 <= end_before(frags, j) <= chunk.len(),
        chunk.last() == 10u8 ==> end_before(frags, j) <= chunk.len() - 1,
    decreases j,
{
    if j > 0 {
        let k = j - 1;
        lemma_spliced_upto_no_newline(chunk, frags, old, new, k);
        assert(fits_at(chunk, frags, k));
        let pair = frags[k];
        let at = pair.0.index;
        let taken = encode_utf8(old);
        let put = encode_utf8(new);
        let start = end_before(frags, k);
        let gap = chunk.subrange(start, at);
        let done = spliced_upto(chunk, frags, k);
        assert(chunk.subrange(at, at + taken.len()) == taken);
        assert(chunk[at + taken.len() - 1] == chunk.subrange(at, at + taken.len())[taken.len() - 1]);
        assert(taken[taken.len() - 1] != 10u8);
        assert forall|i: int| 0 <= i < gap.len() implies gap[i] != 10u8 by {
            assert(gap[i] == chunk[start + i]);
        }
        let upto = spliced_upto(chunk, frags, j);
        assert(upto == done + gap + put);
        assert forall|i: int| 0 <= i < upto.len() implies upto[i] != 10u8 by {
            if i < done.len() {
                assert(upto[i] == done[i]);
            } else if i < done.len() + gap.len() {
                assert(upto[i] == gap[i - done.len()]);
            } else {
                assert(upto[i] == put[i - done.len() - gap.len()]);
            }
        }
    }
}

/// What such fragments make of a line is like a line again, as long as it is
/// not empty: it ends with a newline where the line does, and holds none
/// where the line holds none.
pub proof fn lemma_spliced_line(
    chunk: Seq<u8>,
    frags: Seq<(FragmentView, FragmentView)>,
    old: Seq<char>,
    new: Seq<char>,
)
    requires
        line_like(chunk),
        fragments_fit(chunk, frags),
        swaps_within_lines(frags, old, new),
    ensures
        chunk.last() == 10u8 ==> line_like(spliced(chunk, frags)) && spliced(chunk, frags).last()
            == 10u8,
        chunk.last() != 10u8 ==> no_newline(spliced(chunk, frags)),
{
    let n = frags.len() as int;
    lemma_spliced_upto_no_newline(chunk, frags, old, new, n);
    let done = spliced_upto(chunk, frags, n);
    let start = end_before(frags, n);
    let rest = chunk.subrange(start, chunk.len() as int);
    let made = spliced(chunk, frags);
    assert(made == done + rest);
    assert forall|i: int| 0 <= i < made.len() - 1 implies made[i] != 10u8 by {
        if i < done.len() {
            assert(made[i] == done[i]);
        } else {
            assert(made[i] == rest[i - done.len()]);
            assert(rest[i - done.len()] == chunk[start + i - done.len()]);
        }
    }
    if chunk.last() == 10u8 {
        assert(rest.len() > 0);
        assert(made.last() == rest.last());
        assert(rest.last() == chunk.last());
    } else {
        if made.len() > 0 {
            let i = made.len() - 1;
            if i < done.len() {
                assert(made[i] == done[i]);
            } else {
                assert(made[i] == rest[i - done.len()]);
                assert(rest[i - done.len()] == chunk[start + i - done.len()]);
            }
        }
    }
}

/// A newline is a character of its own: in text, the byte 10 starts and
/// ends on character boundaries.
pub proof fn lemma_newline_on_boundaries(data: Seq<u8>, at: int)
    requires
        valid_utf8(data),
        0 <= at < data.len(),
        data[at] == 10u8,
    ensures
        is_char_boundary(data, at),
        is_char_boundary(data, at + 1),
{
    let newline = seq!['\n'];
    is_ascii_chars_encode_utf8(newline);
    encode_utf8_valid_utf8(newline);
    assert(encode_utf8(newline) =~= seq![10u8]);
    assert(data.subrange(at, at + 1) =~= seq![10u8]);
    lemma_occurrence_on_boundaries(data, seq![10u8], at);
}

/// The chunks of text are text, from any character boundary on.
pub proof fn lemma_valid_chunks(data: Seq<u8>, from: int)
    requires
        valid_utf8(data),
        0 <= from <= data.len(),
        is_char_boundary(data, from),
    ensures
        all_text(
            chunks_from(data, from, 10u8),
            chunks_from(data, from, 10u8).len() as int,
        ),
    decreases data.len() - from,
{
    let chunks = chunks_from(data, from, 10u8);
    if from < data.len() {
        let end = chunk_end(data, from, 10u8);
        lemma_chunk_end_props(data, from);
        if end == data.len() {
            is_char_boundary_start_end_of_seq(data);
        } else {
            lemma_newline_on_boundaries(data, end - 1);
        }
        valid_utf8_split(data, end);
        lemma_boundary_in_prefix(data, from, end);
        let head = data.subrange(0, end);
        valid_utf8_split(head, from);
        let first = data.subrange(from, end);
        assert(head.subrange(from, end) =~= first);
        lemma_valid_chunks(data, end);
        let rest = chunks_from(data, end, 10u8);
        assert(chunks == seq![first] + rest);
        assert forall|i: int| 0 <= i < chunks.len() implies valid_utf8(#[trigger] chunks[i]) by {
            if i > 0 {
                assert(chunks[i] == rest[i - 1]);
            }
        }
    }
}

/// Chunks that are text join to text.
pub proof fn lemma_joined_valid(chunks: Seq<Seq<u8>>, n: int)
    requires
        0 <= n <= chunks.len(),
        all_text(chunks, n),
    ensures
        valid_utf8(joined(chunks, n)),
    decreases n,
{
    if n > 0 {
        lemma_joined_valid(chunks, n - 1);
        assert(valid_utf8(chunks[n - 1]));
        valid_utf8_concat(joined(chunks, n - 1), chunks[n - 1]);
    }
}

/// The contents of a file are text, line by line, exactly when they are
/// valid UTF-8 as a whole: a file is skipped exactly when it does not decode.
pub proof fn lemma_is_text_iff_valid(data: Seq<u8>)
    ensures
        is_text(data) <==> valid_utf8(data),
{
    let chunks = chunks_from(data, 0, 10u8);
    if valid_utf8(data) {
        is_char_boundary_start_end_of_seq(data);
        lemma_valid_chunks(data, 0);
    }
    if is_text(data) {
        lemma_joined_valid(chunks, chunks.len() as int);
        lemma_chunks_join(data, 0, 10u8);
        assert(data.subrange(0, data.len() as int) =~= data);
    }
}

} // verus!
