//! Patching the contents of one file, line by line. The line terminators are
//! kept as they are: a line is a chunk of bytes that ends with the newline, or
//! with the end of the file.

use vstd::prelude::*;
use vstd::utf8::*;
use vstd::string::*;
use crate::query::{Query, QueryView};
use crate::lines::{
    lemma_chunks_are_lines, lemma_chunks_of_joined, lemma_spliced_line, line_like, lines_like,
    no_newline,
};
use crate::replacer::{
    at_occurrences, fragments_fit, lemma_literal_replaces_every_occurrence, lemma_undoes,
    lemma_undone, occurrences, output_places, outputs_placed, replace, scan, spliced,
    FragmentView, Replacement,
};
use crate::text::{is_first_occurrence, occurs_at, push_text};

verus! {

/// Where the chunk that starts at `from` ends: behind the first delimiter at
/// or after `from`, or at the end of the data.
pub open spec fn chunk_end(data: Seq<u8>, from: int, delimiter: u8) -> int
    decreases data.len() - from,
{
    if from < 0 || from >= data.len() {
        from
    } else if data[from] == delimiter {
        from + 1
    } else {
        chunk_end(data, from + 1, delimiter)
    }
}

/// The chunks of the data from `from` on, each with its delimiter.
pub open spec fn chunks_from(data: Seq<u8>, from: int, delimiter: u8) -> Seq<Seq<u8>>
    decreases data.len() - from,
{
    if from < 0 || from >= data.len() {
        Seq::empty()
    } else {
        let end = chunk_end(data, from, delimiter);
        if from < end <= data.len() {
            seq![data.subrange(from, end)] + chunks_from(data, end, delimiter)
        } else {
            Seq::empty()
        }
    }
}

/// A chunk that starts inside the data is not empty and ends inside it.
pub proof fn lemma_chunk_end_bounds(data: Seq<u8>, from: int, delimiter: u8)
    requires
        0 <= from < data.len(),
    ensures
        from < chunk_end(data, from, delimiter) <= data.len(),
    decreases data.len() - from,
{
    if data[from] != delimiter {
        if from + 1 < data.len() {
            lemma_chunk_end_bounds(data, from + 1, delimiter);
        } else {
            assert(chunk_end(data, from + 1, delimiter) == from + 1);
        }
    }
}

/// Hands out the chunks of a buffer one by one, each with its delimiter.
pub struct LineIterator<'a> {
    delimiter: u8,
    data: &'a [u8],
    position: usize,
}

impl<'a> LineIterator<'a> {
    /// The bytes that were not handed out yet.
    pub closed spec fn remaining(&self) -> Seq<u8> {
        self.data@.subrange(self.position as int, self.data@.len() as int)
    }

    /// The delimiter that ends a chunk.
    pub closed spec fn delimiter_view(&self) -> u8 {
        self.delimiter
    }

    /// The position lies inside the buffer.
    pub closed spec fn wf(&self) -> bool {
        self.position <= self.data@.len()
    }

    pub fn new(delimiter: u8, data: &'a [u8]) -> (lines: Self)
        ensures
            lines.wf(),
            lines.remaining() == data@,
            lines.delimiter_view() == delimiter,
    {
        let lines = Self { delimiter, data, position: 0 };
        assert(lines.remaining() =~= data@);
        lines
    }

    /// The next chunk: the bytes up to the next delimiter and the delimiter
    /// itself, or what is left where no delimiter follows; `None` at the end.
    pub fn next(&mut self) -> (chunk: Option<Vec<u8>>)
        requires
            old(self).wf(),
        ensures
            final(self).wf(),
            final(self).delimiter_view() == old(self).delimiter_view(),
            match chunk {
                Some(bytes) => {
                    let end = chunk_end(old(self).remaining(), 0, old(self).delimiter_view());
                    &&& 0 < end <= old(self).remaining().len()
                    &&& bytes@ == old(self).remaining().subrange(0, end)
                    &&& final(self).remaining() == old(self).remaining().subrange(
                        end,
                        old(self).remaining().len() as int,
                    )
                },
                None => old(self).remaining().len() == 0 && final(self).remaining().len() == 0,
            },
    {
        let len = self.data.len();
        if self.position >= len {
            return None;
        }
        let ghost rest = self.remaining();
        let start = self.position;
        let mut buf: Vec<u8> = Vec::new();
        let mut i: usize = start;
        let mut done = false;
        while i < len && !done
            invariant
                start <= i <= len,
                len == self.data@.len(),
                self.position == start,
                rest == self.data@.subrange(start as int, len as int),
                buf@ == self.data@.subrange(start as int, i as int),
                !done ==> chunk_end(rest, 0, self.delimiter) == chunk_end(
                    rest,
                    i - start,
                    self.delimiter,
                ),
                done ==> start < i && chunk_end(rest, 0, self.delimiter) == i - start,
            decreases len - i + (if done { 0int } else { 1int }),
        {
            let byte = self.data[i];
            buf.push(byte);
            assert(rest[i - start] == byte);
            if byte == self.delimiter {
                done = true;
            }
            i += 1;
            assert(buf@ =~= self.data@.subrange(start as int, i as int));
        }
        self.position = i;
        proof {
            assert(buf@ =~= rest.subrange(0, i - start));
            assert(self.remaining() =~= rest.subrange(i - start, rest.len() as int));
        }
        Some(buf)
    }
}

/// Decodes a chunk of bytes: calls `std::str::from_utf8`, which gives the
/// text where the bytes are valid UTF-8, and an error where they are not.
#[verifier::external_body]
fn decode_chunk(bytes: &[u8]) -> (text: Option<&str>)
    ensures
        match text {
            Some(line) => valid_utf8(bytes@) && line.spec_bytes() == bytes@,
            None => !valid_utf8(bytes@),
        },
{
    std::str::from_utf8(bytes).ok()
}

/// Every chunk before position `n` is valid UTF-8.
pub open spec fn all_text(chunks: Seq<Seq<u8>>, n: int) -> bool {
    forall|i: int| 0 <= i < n && i < chunks.len() ==> valid_utf8(#[trigger] chunks[i])
}

/// The data are text: every line of them is valid UTF-8.
pub open spec fn is_text(data: Seq<u8>) -> bool {
    all_text(chunks_from(data, 0, 10u8), chunks_from(data, 0, 10u8).len() as int)
}

/// The fragments that a query finds in a chunk of text.
pub open spec fn line_fragments(chunk: Seq<u8>, query: QueryView) -> Seq<
    (FragmentView, FragmentView),
> {
    scan(query, decode_utf8(chunk), 0, 0)
}

/// What a query makes of a chunk of text: the chunk itself where nothing
/// matches.
pub open spec fn patched_chunk(chunk: Seq<u8>, query: QueryView) -> Seq<u8> {
    spliced(chunk, line_fragments(chunk, query))
}

/// What a query makes of the first `n` chunks, one behind the other.
pub open spec fn patched(chunks: Seq<Seq<u8>>, query: QueryView, n: int) -> Seq<u8>
    decreases n,
{
    if n <= 0 {
        Seq::empty()
    } else {
        patched(chunks, query, n - 1) + patched_chunk(chunks[n - 1], query)
    }
}

/// The numbers, counted from 1, of the lines among the first `n` in which the
/// query finds something.
pub open spec fn matched_lines(chunks: Seq<Seq<u8>>, query: QueryView, n: int) -> Seq<int>
    decreases n,
{
    if n <= 0 {
        Seq::empty()
    } else if line_fragments(chunks[n - 1], query).len() > 0 {
        matched_lines(chunks, query, n - 1).push(n)
    } else {
        matched_lines(chunks, query, n - 1)
    }
}

/// The number of fragments that the query finds in the first `n` chunks.
pub open spec fn fragment_count(chunks: Seq<Seq<u8>>, query: QueryView, n: int) -> int
    decreases n,
{
    if n <= 0 {
        0
    } else {
        fragment_count(chunks, query, n - 1) + line_fragments(chunks[n - 1], query).len()
    }
}

/// One changed line of a file, for display.
#[derive(Debug)]
pub struct LineChange {
    /// The number of the line in its file, counted from 1.
    pub line_number: usize,
    /// What the query made of the line.
    pub replacement: Replacement,
}

/// `change` is the record of line `number` of the chunks: it holds that
/// number, the line as its input, and the fragments that the query finds in
/// the line.
pub open spec fn records(
    change: LineChange,
    chunks: Seq<Seq<u8>>,
    query: QueryView,
    number: int,
) -> bool {
    &&& change.line_number == number
    &&& 1 <= number <= chunks.len()
    &&& change.replacement.wf()
    &&& change.replacement.input_view() == decode_utf8(chunks[number - 1])
    &&& change.replacement.fragment_views() == line_fragments(chunks[number - 1], query)
}

/// The new contents of a file, and what was changed to get there.
#[derive(Debug)]
pub struct FilePatcher {
    path: String,
    new_contents: String,
    num_replacements: usize,
    num_lines: usize,
    changes: Vec<LineChange>,
}

impl FilePatcher {
    /// The path of the file, as characters.
    pub closed spec fn path_view(&self) -> Seq<char> {
        self.path@
    }

    /// The new contents, as bytes.
    pub closed spec fn new_bytes(&self) -> Seq<u8> {
        encode_utf8(self.new_contents@)
    }

    /// The number of fragments that were replaced, as a plain value.
    pub closed spec fn replaced(&self) -> int {
        self.num_replacements as int
    }

    /// The number of lines that were changed, as a plain value.
    pub closed spec fn changed(&self) -> int {
        self.num_lines as int
    }

    /// The changed lines, as they are kept.
    pub closed spec fn change_list(&self) -> Seq<LineChange> {
        self.changes@
    }

    /// This is what the query makes of the file at `path` with the contents
    /// `data`, which are text: the new contents are the lines as the query
    /// left them, one behind the other; the counts are those of the changed
    /// lines and of the replaced fragments; and the changed lines are listed
    /// in the order of the file, each with its number.
    pub open spec fn describes(&self, path: Seq<char>, data: Seq<u8>, query: QueryView) -> bool {
        let chunks = chunks_from(data, 0, 10u8);
        let count = chunks.len() as int;
        &&& is_text(data)
        &&& self.path_view() == path
        &&& self.new_bytes() == patched(chunks, query, count)
        &&& self.replaced() == fragment_count(chunks, query, count)
        &&& self.changed() == matched_lines(chunks, query, count).len()
        &&& self.change_list().len() == self.changed()
        &&& forall|i: int|
            0 <= i < self.change_list().len() ==> #[trigger] records(
                self.change_list()[i],
                chunks,
                query,
                matched_lines(chunks, query, count)[i],
            )
    }

    /// Runs a query over the contents of a file. Where a chunk is not valid
    /// UTF-8 the file is no text and there is no result. Otherwise the new
    /// contents hold each line as the query left it, with its terminator,
    /// and the changed lines are listed with their numbers.
    pub fn new(path: &str, contents: &[u8], query: &Query) -> (res: Option<FilePatcher>)
        ensures
            match res {
                Some(patcher) => patcher.describes(path@, contents@, query@),
                None => !is_text(contents@),
            },
    {
        let ghost data = contents@;
        let ghost chunks = chunks_from(data, 0, 10u8);
        let total = contents.len();
        let mut num_replacements: usize = 0;
        let mut num_lines: usize = 0;
        let mut new_contents = String::new();
        let mut changes: Vec<LineChange> = Vec::new();
        let mut lines = LineIterator::new(10u8, contents);
        let mut num: usize = 0;
        let ghost mut consumed: int = 0;
        proof {
            assert(data.subrange(0, data.len() as int) =~= data);
        }
        loop
            invariant
                lines.wf(),
                lines.delimiter_view() == 10u8,
                data == contents@,
                total == data.len(),
                chunks == chunks_from(data, 0, 10u8),
                0 <= consumed <= data.len(),
                lines.remaining() == data.subrange(consumed, data.len() as int),
                chunks =~= chunks.take(num as int) + chunks_from(data, consumed, 10u8),
                num <= consumed,
                num <= chunks.len(),
                all_text(chunks, num as int),
                encode_utf8(new_contents@) == patched(chunks, query@, num as int),
                num_replacements == fragment_count(chunks, query@, num as int),
                num_replacements <= consumed,
                num_lines == matched_lines(chunks, query@, num as int).len(),
                num_lines <= num,
                changes@.len() == num_lines,
                forall|i: int|
                    0 <= i < changes@.len() ==> #[trigger] records(
                        changes@[i],
                        chunks,
                        query@,
                        matched_lines(chunks, query@, num as int)[i],
                    ),
            ensures
                num == chunks.len(),
            decreases data.len() - consumed,
        {
            let ghost rest = lines.remaining();
            let chunk: Vec<u8> = match lines.next() {
                Some(chunk) => chunk,
                None => {
                    proof {
                        assert(consumed == data.len());
                        assert(chunks_from(data, consumed, 10u8) =~= Seq::<Seq<u8>>::empty());
                        assert(chunks.take(num as int).len() == num);
                    }
                    break ;
                },
            };
            proof {
                let end = chunk_end(rest, 0, 10u8);
                lemma_next_chunk(data, consumed, chunks, num as int, 10u8);
                assert(chunk@ =~= data.subrange(consumed, consumed + end));
                assert(lines.remaining() =~= data.subrange(consumed + end, data.len() as int));
                consumed = consumed + end;
            }
            let line = match decode_chunk(chunk.as_slice()) {
                Some(line) => line,
                None => {
                    assert(num < chunks.len() && !valid_utf8(chunks[num as int]));
                    assert(!all_text(chunks, chunks.len() as int));
                    return None;
                },
            };
            proof {
                decode_utf8_encode_utf8(chunk@);
                encode_utf8_decode_utf8(line@);
                assert(line@ == decode_utf8(chunk@));
            }
            let ghost before = matched_lines(chunks, query@, num as int);
            let ghost old_changes = changes@;
            match replace(line, query) {
                None => {
                    push_text(&mut new_contents, line);
                    proof {
                        assert(spliced(chunk@, line_fragments(chunk@, query@)) =~= chunk@);
                    }
                },
                Some(replacement) => {
                    num_lines += 1;
                    num_replacements += replacement.num_fragments();
                    push_text(&mut new_contents, replacement.output());
                    proof {
                        encode_utf8_valid_utf8(replacement.output_view());
                    }
                    changes.push(LineChange { line_number: num + 1, replacement });
                },
            }
            num += 1;
            proof {
                let after = matched_lines(chunks, query@, num as int);
                assert forall|i: int| 0 <= i < changes@.len() implies #[trigger] records(
                    changes@[i],
                    chunks,
                    query@,
                    after[i],
                ) by {
                    if i < before.len() {
                        assert(after[i] == before[i]);
                        assert(records(old_changes[i], chunks, query@, before[i]));
                        assert(changes@[i] == old_changes[i]);
                    }
                }
            }
        }
        Some(
            FilePatcher {
                path: path.to_owned(),
                new_contents,
                num_replacements,
                num_lines,
                changes,
            },
        )
    }

    /// The path of the file.
    pub fn path(&self) -> (path: &str)
        ensures
            path@ == self.path_view(),
    {
        self.path.as_str()
    }

    /// The new contents of the file.
    pub fn new_contents(&self) -> (contents: &str)
        ensures
            contents.spec_bytes() == self.new_bytes(),
    {
        self.new_contents.as_str()
    }

    /// The number of fragments that were replaced.
    pub fn num_replacements(&self) -> (n: usize)
        ensures
            n == self.replaced(),
    {
        self.num_replacements
    }

    /// The number of lines that were changed.
    pub fn num_lines(&self) -> (n: usize)
        ensures
            n == self.changed(),
    {
        self.num_lines
    }

    /// The changed lines, in the order of the file.
    pub fn changes(&self) -> (changes: &Vec<LineChange>)
        ensures
            changes@ == self.change_list(),
    {
        &self.changes
    }
}

/// Where the chunks behind the first `num` are those of the data from
/// `consumed` on, the next chunk starts at `consumed`, and the chunks behind
/// it are those of the data from its end on.
pub proof fn lemma_next_chunk(
    data: Seq<u8>,
    consumed: int,
    chunks: Seq<Seq<u8>>,
    num: int,
    delimiter: u8,
)
    requires
        0 <= consumed < data.len(),
        0 <= num <= chunks.len(),
        chunks =~= chunks.take(num) + chunks_from(data, consumed, delimiter),
    ensures
        ({
            let end = chunk_end(data.subrange(consumed, data.len() as int), 0, delimiter);
            &&& 0 < end <= data.len() - consumed
            &&& num < chunks.len()
            &&& chunks[num] == data.subrange(consumed, consumed + end)
            &&& chunks =~= chunks.take(num + 1) + chunks_from(data, consumed + end, delimiter)
        }),
{
    let end = chunk_end(data.subrange(consumed, data.len() as int), 0, delimiter);
    lemma_chunk_end_shift(data, consumed, 0, delimiter);
    lemma_chunk_end_bounds(data, consumed, delimiter);
    let tail = chunks_from(data, consumed, delimiter);
    let chunk = data.subrange(consumed, consumed + end);
    assert(tail == seq![chunk] + chunks_from(data, consumed + end, delimiter));
    assert(chunks.take(num).len() == num);
    assert(chunks.len() == num + tail.len());
    assert(chunks[num] == tail[0]);
    assert(chunks.take(num + 1) =~= chunks.take(num).push(chunk));
}

/// The end of a chunk does not depend on where the counting starts: in what
/// is left of the data from `base` on, the chunk that starts at `from` ends
/// where it ends in the whole data.
pub proof fn lemma_chunk_end_shift(data: Seq<u8>, base: int, from: int, delimiter: u8)
    requires
        0 <= base <= data.len(),
        0 <= from,
    ensures
        base + chunk_end(data.subrange(base, data.len() as int), from, delimiter) == chunk_end(
            data,
            base + from,
            delimiter,
        ),
    decreases data.len() - base - from,
{
    let rest = data.subrange(base, data.len() as int);
    if from < rest.len() {
        assert(rest[from] == data[base + from]);
        if rest[from] != delimiter {
            lemma_chunk_end_shift(data, base, from + 1, delimiter);
        }
    }
}

/// The first `n` chunks, one behind the other.
pub open spec fn joined(chunks: Seq<Seq<u8>>, n: int) -> Seq<u8>
    decreases n,
{
    if n <= 0 {
        Seq::empty()
    } else {
        joined(chunks, n - 1) + chunks[n - 1]
    }
}

/// A chunk in front of a list of chunks stands in front of what they join to.
pub proof fn lemma_joined_front(chunk: Seq<u8>, rest: Seq<Seq<u8>>, n: int)
    requires
        0 <= n <= rest.len(),
    ensures
        joined(seq![chunk] + rest, n + 1) == chunk + joined(rest, n),
    decreases n,
{
    let all = seq![chunk] + rest;
    if n == 0 {
        assert(joined(all, 0) =~= Seq::<u8>::empty());
        assert(all[0] == chunk);
        assert(joined(all, 1) =~= chunk + joined(rest, 0));
    } else {
        lemma_joined_front(chunk, rest, n - 1);
        assert(all[n] == rest[n - 1]);
        assert(joined(all, n + 1) =~= chunk + joined(rest, n));
    }
}

/// The chunks of the data, one behind the other, are the data.
pub proof fn lemma_chunks_join(data: Seq<u8>, from: int, delimiter: u8)
    requires
        0 <= from <= data.len(),
    ensures
        joined(
            chunks_from(data, from, delimiter),
            chunks_from(data, from, delimiter).len() as int,
        ) == data.subrange(from, data.len() as int),
    decreases data.len() - from,
{
    let chunks = chunks_from(data, from, delimiter);
    if from < data.len() {
        let end = chunk_end(data, from, delimiter);
        lemma_chunk_end_bounds(data, from, delimiter);
        lemma_chunks_join(data, end, delimiter);
        let rest = chunks_from(data, end, delimiter);
        lemma_joined_front(data.subrange(from, end), rest, rest.len() as int);
        assert(joined(chunks, chunks.len() as int) =~= data.subrange(from, data.len() as int));
    } else {
        assert(joined(chunks, 0) =~= data.subrange(from, data.len() as int));
    }
}

/// Where the query finds nothing in the first `n` chunks, it leaves them as
/// they are.
pub proof fn lemma_unmatched_chunks_unchanged(chunks: Seq<Seq<u8>>, query: QueryView, n: int)
    requires
        0 <= n <= chunks.len(),
        fragment_count(chunks, query, n) == 0,
    ensures
        patched(chunks, query, n) == joined(chunks, n),
    decreases n,
{
    if n > 0 {
        lemma_fragment_count_grows(chunks, query, n - 1);
        lemma_unmatched_chunks_unchanged(chunks, query, n - 1);
        let chunk = chunks[n - 1];
        assert(line_fragments(chunk, query).len() == 0);
        assert(patched_chunk(chunk, query) =~= chunk);
    }
}

/// The number of fragments in the first `n` chunks is not negative.
pub proof fn lemma_fragment_count_grows(chunks: Seq<Seq<u8>>, query: QueryView, n: int)
    ensures
        fragment_count(chunks, query, n) >= 0,
    decreases n,
{
    if n > 0 {
        lemma_fragment_count_grows(chunks, query, n - 1);
    }
}

/// A file in which the query finds nothing comes out byte for byte as it
/// went in: every line keeps its text and its terminator, and a last line
/// without terminator stays without one.
pub proof fn lemma_file_without_match_is_unchanged(
    patcher: FilePatcher,
    path: Seq<char>,
    data: Seq<u8>,
    query: QueryView,
)
    requires
        patcher.describes(path, data, query),
        patcher.replaced() == 0,
    ensures
        patcher.new_bytes() == data,
{
    let chunks = chunks_from(data, 0, 10u8);
    lemma_unmatched_chunks_unchanged(chunks, query, chunks.len() as int);
    lemma_chunks_join(data, 0, 10u8);
    assert(data.subrange(0, data.len() as int) =~= data);
}

/// What a query makes of each chunk.
pub open spec fn patched_chunks(chunks: Seq<Seq<u8>>, query: QueryView) -> Seq<Seq<u8>> {
    Seq::new(chunks.len(), |i: int| patched_chunk(chunks[i], query))
}

/// A line in which the query finds something is among the matched lines.
pub proof fn lemma_matched_line_listed(chunks: Seq<Seq<u8>>, query: QueryView, n: int, k: int)
    requires
        1 <= k <= n,
        line_fragments(chunks[k - 1], query).len() > 0,
    ensures
        exists|i: int|
            0 <= i < matched_lines(chunks, query, n).len() && #[trigger] matched_lines(
                chunks,
                query,
                n,
            )[i] == k,
    decreases n,
{
    let listed = matched_lines(chunks, query, n);
    if k == n {
        let i = matched_lines(chunks, query, n - 1).len() as int;
        assert(listed[i] == k);
    } else {
        lemma_matched_line_listed(chunks, query, n - 1, k);
        let before = matched_lines(chunks, query, n - 1);
        let i = choose|i: int| 0 <= i < before.len() && #[trigger] before[i] == k;
        assert(listed[i] == k);
    }
}

/// The fragments that a literal query finds in a line of a file that was
/// patched stand in the line, one behind the other, and swap `old` for `new`.
pub proof fn lemma_line_fragments_fit(
    first: FilePatcher,
    path: Seq<char>,
    data: Seq<u8>,
    old: Seq<char>,
    new: Seq<char>,
    k: int,
)
    requires
        first.describes(path, data, QueryView::Simple { old, new }),
        0 <= k < chunks_from(data, 0, 10u8).len(),
    ensures
        ({
            let chunk = chunks_from(data, 0, 10u8)[k];
            let frags = line_fragments(chunk, QueryView::Simple { old, new });
            &&& valid_utf8(chunk)
            &&& fragments_fit(chunk, frags)
            &&& outputs_placed(chunk, frags)
            &&& at_occurrences(frags, occurrences(chunk, encode_utf8(old), 0), old, new)
        }),
{
    let there = QueryView::Simple { old, new };
    let chunks = chunks_from(data, 0, 10u8);
    let count = chunks.len() as int;
    let chunk = chunks[k];
    assert(valid_utf8(chunk));
    decode_utf8_encode_utf8(chunk);
    let frags = line_fragments(chunk, there);
    lemma_literal_replaces_every_occurrence(decode_utf8(chunk), old, new);
    if frags.len() > 0 {
        lemma_matched_line_listed(chunks, there, count, k + 1);
        let listed = matched_lines(chunks, there, count);
        let i = choose|i: int| 0 <= i < listed.len() && #[trigger] listed[i] == k + 1;
        assert(records(first.change_list()[i], chunks, there, listed[i]));
    }
}

/// In what a literal query makes of a line, the swapped query finds exactly
/// the fragments that were put there.
pub open spec fn finds_what_was_put(chunk: Seq<u8>, old: Seq<char>, new: Seq<char>) -> bool {
    let there = QueryView::Simple { old, new };
    occurrences(patched_chunk(chunk, there), encode_utf8(new), 0) == output_places(
        line_fragments(chunk, there),
    )
}

/// In what a literal query makes of a line, which is text, the swapped query
/// finds exactly the fragments that were put there.
pub open spec fn reversible_line(chunk: Seq<u8>, old: Seq<char>, new: Seq<char>) -> bool {
    &&& valid_utf8(patched_chunk(chunk, QueryView::Simple { old, new }))
    &&& finds_what_was_put(chunk, old, new)
}

/// One line there and back: where the swapped query finds in what a literal
/// query made of a line exactly the fragments that were put there, it gives
/// back the line.
pub proof fn lemma_line_there_and_back(
    first: FilePatcher,
    path: Seq<char>,
    data: Seq<u8>,
    old: Seq<char>,
    new: Seq<char>,
    k: int,
)
    requires
        first.describes(path, data, QueryView::Simple { old, new }),
        0 <= k < chunks_from(data, 0, 10u8).len(),
        reversible_line(chunks_from(data, 0, 10u8)[k], old, new),
    ensures
        patched_chunk(
            patched_chunk(chunks_from(data, 0, 10u8)[k], QueryView::Simple { old, new }),
            QueryView::Simple { old: new, new: old },
        ) == chunks_from(data, 0, 10u8)[k],
{
    let there = QueryView::Simple { old, new };
    let back = QueryView::Simple { old: new, new: old };
    let chunk = chunks_from(data, 0, 10u8)[k];
    lemma_line_fragments_fit(first, path, data, old, new, k);
    let frags = line_fragments(chunk, there);
    let made = patched_chunk(chunk, there);
    decode_utf8_encode_utf8(made);
    let undo = line_fragments(made, back);
    lemma_literal_replaces_every_occurrence(decode_utf8(made), new, old);
    lemma_undoes(frags, undo, occurrences(chunk, encode_utf8(old), 0), old, new);
    lemma_undone(chunk, frags, undo, old, new);
}

/// The first `n` lines there and back.
pub proof fn lemma_lines_there_and_back(
    first: FilePatcher,
    path: Seq<char>,
    data: Seq<u8>,
    old: Seq<char>,
    new: Seq<char>,
    n: int,
)
    requires
        first.describes(path, data, QueryView::Simple { old, new }),
        0 <= n <= chunks_from(data, 0, 10u8).len(),
        forall|k: int|
            0 <= k < chunks_from(data, 0, 10u8).len() ==> reversible_line(
                #[trigger] chunks_from(data, 0, 10u8)[k],
                old,
                new,
            ),
    ensures
        patched(
            patched_chunks(chunks_from(data, 0, 10u8), QueryView::Simple { old, new }),
            QueryView::Simple { old: new, new: old },
            n,
        ) == joined(chunks_from(data, 0, 10u8), n),
    decreases n,
{
    if n > 0 {
        let chunks = chunks_from(data, 0, 10u8);
        let there = QueryView::Simple { old, new };
        lemma_lines_there_and_back(first, path, data, old, new, n - 1);
        assert(reversible_line(chunks[n - 1], old, new));
        lemma_line_there_and_back(first, path, data, old, new, n - 1);
        assert(patched_chunks(chunks, there)[n - 1] == patched_chunk(chunks[n - 1], there));
    }
}

/// What a query makes of the first `n` chunks is what it makes of each, one
/// behind the other.
pub proof fn lemma_patched_is_joined(chunks: Seq<Seq<u8>>, query: QueryView, n: int)
    requires
        0 <= n <= chunks.len(),
    ensures
        patched(chunks, query, n) == joined(patched_chunks(chunks, query), n),
    decreases n,
{
    if n > 0 {
        lemma_patched_is_joined(chunks, query, n - 1);
        assert(patched_chunks(chunks, query)[n - 1] == patched_chunk(chunks[n - 1], query));
    }
}

/// Nothing stands in an empty text but what is empty, and that is not
/// looked for.
pub proof fn lemma_no_occurrence_in_empty(hay: Seq<u8>, pat: Seq<u8>)
    requires
        hay.len() == 0,
    ensures
        occurrences(hay, pat, 0).len() == 0,
{
    if pat.len() > 0 {
        let rest = hay.subrange(0, hay.len() as int);
        assert forall|i: int| !is_first_occurrence(rest, pat, i) by {
            assert(!occurs_at(rest, pat, i));
        }
    }
}

/// What a literal query makes of the lines of a file are lines again, where
/// neither of its texts holds a newline and the swapped query finds in each
/// line what was put there.
pub proof fn lemma_patched_lines_like(
    first: FilePatcher,
    path: Seq<char>,
    data: Seq<u8>,
    old: Seq<char>,
    new: Seq<char>,
)
    requires
        first.describes(path, data, QueryView::Simple { old, new }),
        no_newline(encode_utf8(old)),
        no_newline(encode_utf8(new)),
        forall|k: int|
            0 <= k < chunks_from(data, 0, 10u8).len() ==> finds_what_was_put(
                #[trigger] chunks_from(data, 0, 10u8)[k],
                old,
                new,
            ),
    ensures
        lines_like(patched_chunks(chunks_from(data, 0, 10u8), QueryView::Simple { old, new })),
{
    let there = QueryView::Simple { old, new };
    let chunks = chunks_from(data, 0, 10u8);
    let made = patched_chunks(chunks, there);
    lemma_chunks_are_lines(data, 0);
    assert forall|k: int| 0 <= k < made.len() implies {
        &&& line_like(#[trigger] made[k])
        &&& (k < made.len() - 1 ==> made[k].last() == 10u8)
    } by {
        let chunk = chunks[k];
        let frags = line_fragments(chunk, there);
        assert(made[k] == spliced(chunk, frags));
        assert(line_like(chunk));
        lemma_line_fragments_fit(first, path, data, old, new, k);
        lemma_spliced_line(chunk, frags, old, new);
        if chunk.last() != 10u8 {
            assert(finds_what_was_put(chunk, old, new));
            if made[k].len() == 0 {
                lemma_no_occurrence_in_empty(made[k], encode_utf8(new));
                assert(output_places(frags).len() == 0);
                assert(spliced(chunk, frags) =~= chunk);
            }
        }
    }
}

/// A file there and back: a literal query, then the query that swaps its two
/// texts, give back the contents byte for byte, where neither text holds a
/// newline and the swapped query finds in each line exactly the fragments
/// that were put there.
pub proof fn lemma_file_there_and_back(
    first: FilePatcher,
    second: FilePatcher,
    path: Seq<char>,
    data: Seq<u8>,
    old: Seq<char>,
    new: Seq<char>,
)
    requires
        first.describes(path, data, QueryView::Simple { old, new }),
        second.describes(path, first.new_bytes(), QueryView::Simple { old: new, new: old }),
        no_newline(encode_utf8(old)),
        no_newline(encode_utf8(new)),
        forall|k: int|
            0 <= k < chunks_from(data, 0, 10u8).len() ==> finds_what_was_put(
                #[trigger] chunks_from(data, 0, 10u8)[k],
                old,
                new,
            ),
    ensures
        second.new_bytes() == data,
{
    let there = QueryView::Simple { old, new };
    let chunks = chunks_from(data, 0, 10u8);
    let count = chunks.len() as int;
    let made = patched_chunks(chunks, there);
    lemma_patched_lines_like(first, path, data, old, new);
    lemma_patched_is_joined(chunks, there, count);
    lemma_chunks_of_joined(made);
    assert(chunks_from(first.new_bytes(), 0, 10u8) == made);
    assert forall|k: int| 0 <= k < chunks.len() implies reversible_line(
        #[trigger] chunks[k],
        old,
        new,
    ) by {
        assert(valid_utf8(chunks_from(first.new_bytes(), 0, 10u8)[k]));
        assert(made[k] == patched_chunk(chunks[k], there));
    }
    lemma_lines_there_and_back(first, path, data, old, new, count);
    lemma_chunks_join(data, 0, 10u8);
    assert(data.subrange(0, data.len() as int) =~= data);
}

} // verus!
