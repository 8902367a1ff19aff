//! The replacement engine: one line and a query give the fragments that
//! matched, the fragments that take their place, and the rewritten line.

use vstd::prelude::*;
use vstd::utf8::*;
use vstd::string::*;
use crate::query::{pairs_view, Query, QueryView};
use crate::text::{
    between, byte_len, find_str, first_occurrence, is_first_occurrence, lemma_boundary_in_prefix,
    lemma_boundary_in_suffix, lemma_first_occurrence_is, lemma_first_occurrence_none,
    lemma_first_occurrence_on_boundaries, lemma_occurrence_on_boundaries, occurs_at, push_text,
    suffix,
};

verus! {

/// A fragment of text: where it starts in its line, as a byte offset, and
/// what it holds.
#[derive(Debug)]
pub struct Fragment {
    pub index: usize,
    pub text: String,
}

/// A fragment as plain values.
pub struct FragmentView {
    pub index: int,
    pub text: Seq<char>,
}

impl View for Fragment {
    type V = FragmentView;

    open spec fn view(&self) -> FragmentView {
        FragmentView { index: self.index as int, text: self.text@ }
    }
}

/// A list of pairs: a fragment of the input line and the fragment of the
/// output line that takes its place.
#[derive(Debug)]
pub struct Fragments(pub Vec<(Fragment, Fragment)>);

impl View for Fragments {
    type V = Seq<(FragmentView, FragmentView)>;

    open spec fn view(&self) -> Seq<(FragmentView, FragmentView)> {
        Seq::new(self.0@.len(), |i: int| (self.0@[i].0@, self.0@[i].1@))
    }
}

impl Fragments {
    pub fn new() -> (fragments: Fragments)
        ensures
            fragments@ == Seq::<(FragmentView, FragmentView)>::empty(),
    {
        let fragments = Fragments(Vec::new());
        assert(fragments@ =~= Seq::<(FragmentView, FragmentView)>::empty());
        fragments
    }

    pub fn len(&self) -> (n: usize)
        ensures
            n == self@.len(),
    {
        self.0.len()
    }

    pub fn is_empty(&self) -> (empty: bool)
        ensures
            empty == (self@.len() == 0),
    {
        self.0.len() == 0
    }

    /// Appends one pair of fragments.
    pub fn add(&mut self, input: (usize, &str), output: (usize, &str))
        ensures
            final(self)@ == old(self)@.push(
                (
                    FragmentView { index: input.0 as int, text: input.1@ },
                    FragmentView { index: output.0 as int, text: output.1@ },
                ),
            ),
    {
        self.0.push(
            (
                Fragment { index: input.0, text: input.1.to_owned() },
                Fragment { index: output.0, text: output.1.to_owned() },
            ),
        );
        assert(self@ =~= old(self)@.push(
            (
                FragmentView { index: input.0 as int, text: input.1@ },
                FragmentView { index: output.0 as int, text: output.1@ },
            ),
        ));
    }

    /// The pair at position `i`.
    pub fn get(&self, i: usize) -> (pair: &(Fragment, Fragment))
        requires
            i < self@.len(),
        ensures
            (pair.0@, pair.1@) == self@[i as int],
    {
        &self.0[i]
    }
}

/// One match in a piece of text: where it starts, the text that matched and
/// the text that replaces it.
pub struct Hit {
    pub index: int,
    pub input: Seq<char>,
    pub output: Seq<char>,
}

/// The match that a finder returned, as plain values.
pub open spec fn hit_of(found: Option<(usize, String, String)>) -> Option<Hit> {
    match found {
        Some((index, input, output)) => Some(
            Hit { index: index as int, input: input@, output: output@ },
        ),
        None => None,
    }
}

/// The matched text of `hit` stands in `buff` at the hit's offset, between
/// two character boundaries.
pub open spec fn hit_fits(buff: Seq<char>, hit: Hit) -> bool {
    let hay = encode_utf8(buff);
    let text = encode_utf8(hit.input);
    &&& occurs_at(hay, text, hit.index)
    &&& is_char_boundary(hay, hit.index)
    &&& is_char_boundary(hay, hit.index + text.len())
}

/// Where the leftmost match of a regex starts and ends in a text, as
/// `regex::Regex::find` reports it.
pub uninterp spec fn regex_leftmost(re: regex::Regex, hay: Seq<char>) -> Option<(usize, usize)>;

/// What `regex::Captures::expand` makes of a replacement template for the
/// leftmost match of a regex in a text: the template with each reference to a
/// capture group replaced by what the group matched.
pub uninterp spec fn regex_expansion(
    re: regex::Regex,
    hay: Seq<char>,
    template: Seq<char>,
) -> Seq<char>;

/// Calls `regex::Regex::find` and hands out the start and the end of the
/// match. Both are byte offsets into the text, the start is not behind the
/// end, and both fall on character boundaries, as the documentation of
/// `Match::start` and `Match::end` promises.
#[verifier::external_body]
fn regex_find(re: &regex::Regex, hay: &str) -> (found: Option<(usize, usize)>)
    ensures
        found == regex_leftmost(*re, hay@),
        match found {
            Some((start, end)) => {
                &&& start <= end <= hay.spec_bytes().len()
                &&& is_char_boundary(hay.spec_bytes(), start as int)
                &&& is_char_boundary(hay.spec_bytes(), end as int)
            },
            None => true,
        },
{
    match re.find(hay) {
        Some(m) => Some((m.start(), m.end())),
        None => None,
    }
}

/// Calls `regex::Regex::captures`, and on the match `Captures::get` for the
/// whole match and `Captures::expand` for the template. The whole match is
/// the one that `regex::Regex::find` reports, with the same bounds on its
/// offsets; the expanded template is a function of the regex, the text and
/// the template, named `regex_expansion`.
#[verifier::external_body]
fn regex_expand(re: &regex::Regex, hay: &str, template: &str) -> (found: Option<
    (usize, usize, String),
>)
    ensures
        match found {
            Some((start, end, text)) => {
                &&& regex_leftmost(*re, hay@) == Some((start, end))
                &&& text@ == regex_expansion(*re, hay@, template@)
                &&& start <= end <= hay.spec_bytes().len()
                &&& is_char_boundary(hay.spec_bytes(), start as int)
                &&& is_char_boundary(hay.spec_bytes(), end as int)
            },
            None => regex_leftmost(*re, hay@) is None,
        },
{
    match re.captures(hay) {
        Some(caps) => {
            let whole = caps.get(0).unwrap();
            let mut text = String::new();
            caps.expand(template, &mut text);
            Some((whole.start(), whole.end(), text))
        },
        None => None,
    }
}

/// A replacement template refers to what was matched where it holds a `$`,
/// which is the byte 36 of its text; without one it is put in as it is.
pub open spec fn has_reference(template: Seq<char>) -> bool {
    encode_utf8(template).contains(36u8)
}

/// Whether a replacement template refers to what was matched.
pub fn holds_reference(template: &str) -> (res: bool)
    ensures
        res == has_reference(template@),
{
    let bytes = template.as_bytes();
    let mut i: usize = 0;
    while i < bytes.len()
        invariant
            i <= bytes@.len(),
            bytes@ == encode_utf8(template@),
            forall|j: int| 0 <= j < i ==> bytes@[j] != 36u8,
        decreases bytes@.len() - i,
    {
        if bytes[i] == 36u8 {
            return true;
        }
        i += 1;
    }
    false
}

/// What takes the place of a regex match in a text: the template itself
/// where it refers to nothing, else the template expanded against the groups
/// of the match.
pub open spec fn regex_output(re: regex::Regex, hay: Seq<char>, template: Seq<char>) -> Seq<
    char,
> {
    if has_reference(template) {
        regex_expansion(re, hay, template)
    } else {
        template
    }
}

/// The match of a regex in a text, from the span of the match and the text
/// that takes its place: the offset of the match, the text of the span and
/// the text that replaces it.
pub fn regex_hit(buff: &str, start: usize, end: usize, output: String) -> (hit: (
    usize,
    String,
    String,
))
    requires
        start <= end <= buff.spec_bytes().len(),
        is_char_boundary(buff.spec_bytes(), start as int),
        is_char_boundary(buff.spec_bytes(), end as int),
    ensures
        hit.0 == start,
        hit.1@ == decode_utf8(buff.spec_bytes().subrange(start as int, end as int)),
        encode_utf8(hit.1@) == buff.spec_bytes().subrange(start as int, end as int),
        hit.2@ == output@,
        hit_fits(buff@, Hit { index: start as int, input: hit.1@, output: output@ }),
{
    let input_text = between(buff, start, end);
    proof {
        let hay = buff.spec_bytes();
        encode_utf8_valid_utf8(buff@);
        valid_utf8_split(hay, end as int);
        lemma_boundary_in_prefix(hay, start as int, end as int);
        valid_utf8_split(hay.subrange(0, end as int), start as int);
        assert(hay.subrange(0, end as int).subrange(start as int, end as int) =~= hay.subrange(
            start as int,
            end as int,
        ));
        decode_utf8_encode_utf8(hay.subrange(start as int, end as int));
    }
    (start, input_text.to_owned(), output)
}

/// Variant `k` of `items` is the one that a case-preserving search picks in
/// `hay` among the first `upto` variants, and it stands at offset `at`: no
/// variant stands earlier, and of those that stand at `at` it is the first in
/// the list.
pub open spec fn is_best_among(
    hay: Seq<u8>,
    items: Seq<(Seq<char>, Seq<char>)>,
    upto: int,
    k: int,
    at: int,
) -> bool {
    &&& 0 <= k < upto <= items.len()
    &&& at < hay.len()
    &&& first_occurrence(hay, encode_utf8(items[k].0)) == Some(at)
    &&& forall|j: int|
        0 <= j < upto ==> match #[trigger] first_occurrence(hay, encode_utf8(items[j].0)) {
            Some(x) => at < x || (at == x && k <= j),
            None => true,
        }
}

/// The variant that a case-preserving search picks, with its offset.
pub open spec fn best_variant(hay: Seq<u8>, items: Seq<(Seq<char>, Seq<char>)>) -> Option<
    (int, int),
> {
    if exists|p: (int, int)| is_best_among(hay, items, items.len() as int, p.0, p.1) {
        Some(choose|p: (int, int)| is_best_among(hay, items, items.len() as int, p.0, p.1))
    } else {
        None
    }
}

/// The next match of a query in a piece of text.
pub open spec fn next_match(query: QueryView, buff: Seq<char>) -> Option<Hit> {
    match query {
        QueryView::Simple { old, new } => match first_occurrence(
            encode_utf8(buff),
            encode_utf8(old),
        ) {
            Some(at) => Some(Hit { index: at, input: old, output: new }),
            None => None,
        },
        QueryView::Regex { regex, template } => match regex_leftmost(regex, buff) {
            Some((start, end)) => {
                let text = decode_utf8(encode_utf8(buff).subrange(start as int, end as int));
                Some(
                    Hit {
                        index: start as int,
                        input: text,
                        output: regex_output(regex, buff, template),
                    },
                )
            },
            None => None,
        },
        QueryView::PreserveCase { items } => match best_variant(encode_utf8(buff), items) {
            Some((k, at)) => Some(Hit { index: at, input: items[k].0, output: items[k].1 }),
            None => None,
        },
    }
}

/// Something that finds the next match of a query in a piece of text.
pub trait Replacer {
    /// The query that this finder serves.
    spec fn model(&self) -> QueryView;

    /// The offset of the next match in `buff`, the text that matched and the
    /// text that replaces it; `None` where nothing matches.
    fn replace(&self, buff: &str) -> (found: Option<(usize, String, String)>)
        ensures
            hit_of(found) == next_match(self.model(), buff@),
            hit_of(found) matches Some(hit) ==> hit_fits(buff@, hit),
    ;
}

/// Finds a literal.
pub struct SubstringReplacer<'a> {
    pub pattern: &'a str,
    pub replacement: &'a str,
}

impl<'a> SubstringReplacer<'a> {
    pub fn new(pattern: &'a str, replacement: &'a str) -> (finder: Self)
        ensures
            finder.pattern@ == pattern@,
            finder.replacement@ == replacement@,
    {
        Self { pattern, replacement }
    }
}

impl<'a> Replacer for SubstringReplacer<'a> {
    open spec fn model(&self) -> QueryView {
        QueryView::Simple { old: self.pattern@, new: self.replacement@ }
    }

    fn replace(&self, buff: &str) -> (found: Option<(usize, String, String)>) {
        match find_str(buff, self.pattern) {
            Some(index) => {
                proof {
                    lemma_first_occurrence_is(
                        buff.spec_bytes(),
                        self.pattern.spec_bytes(),
                        index as int,
                    );
                    encode_utf8_valid_utf8(buff@);
                    encode_utf8_valid_utf8(self.pattern@);
                    lemma_first_occurrence_on_boundaries(
                        buff.spec_bytes(),
                        self.pattern.spec_bytes(),
                        index as int,
                    );
                }
                Some((index, self.pattern.to_owned(), self.replacement.to_owned()))
            },
            None => {
                proof {
                    lemma_first_occurrence_none(buff.spec_bytes(), self.pattern.spec_bytes());
                }
                None
            },
        }
    }
}

/// Finds the earliest of several literals.
pub struct PreserveCaseReplacer<'a> {
    pub items: &'a Vec<(String, String)>,
}

impl<'a> PreserveCaseReplacer<'a> {
    pub fn new(items: &'a Vec<(String, String)>) -> (finder: Self)
        ensures
            finder.items@ == items@,
    {
        Self { items }
    }
}

/// Only one variant is the best one.
pub proof fn lemma_best_variant_is(
    hay: Seq<u8>,
    items: Seq<(Seq<char>, Seq<char>)>,
    k: int,
    at: int,
)
    requires
        is_best_among(hay, items, items.len() as int, k, at),
    ensures
        best_variant(hay, items) == Some((k, at)),
{
    assert(is_best_among(hay, items, items.len() as int, (k, at).0, (k, at).1));
    let p = choose|p: (int, int)| is_best_among(hay, items, items.len() as int, p.0, p.1);
    assert(is_best_among(hay, items, items.len() as int, p.0, p.1));
    let fk = first_occurrence(hay, encode_utf8(items[k].0));
    let fp = first_occurrence(hay, encode_utf8(items[p.0].0));
    assert(fk == Some(at));
    assert(fp == Some(p.1));
    assert(p.1 == at && p.0 == k);
}

/// Where no variant stands before the end of the text, none is the best one.
pub proof fn lemma_best_variant_none(hay: Seq<u8>, items: Seq<(Seq<char>, Seq<char>)>)
    requires
        forall|j: int|
            0 <= j < items.len() ==> match #[trigger] first_occurrence(
                hay,
                encode_utf8(items[j].0),
            ) {
                Some(x) => hay.len() <= x,
                None => true,
            },
    ensures
        best_variant(hay, items) is None,
{
    if exists|p: (int, int)| is_best_among(hay, items, items.len() as int, p.0, p.1) {
        let p = choose|p: (int, int)| is_best_among(hay, items, items.len() as int, p.0, p.1);
        let fp = first_occurrence(hay, encode_utf8(items[p.0].0));
        assert(fp == Some(p.1));
    }
}

/// A case-preserving search picks the variant that stands first in the
/// text: no other variant stands before it, and of the variants that stand at
/// the same place the one that comes first in the list is picked.
pub proof fn lemma_best_variant_is_earliest(
    hay: Seq<u8>,
    items: Seq<(Seq<char>, Seq<char>)>,
    j: int,
)
    requires
        0 <= j < items.len(),
        first_occurrence(hay, encode_utf8(items[j].0)) is Some,
        first_occurrence(hay, encode_utf8(items[j].0))->0 < hay.len(),
    ensures
        best_variant(hay, items) matches Some((k, at)) && {
            let other = first_occurrence(hay, encode_utf8(items[j].0))->0;
            &&& first_occurrence(hay, encode_utf8(items[k].0)) == Some(at)
            &&& at <= other
            &&& at == other ==> k <= j
        },
{
    lemma_some_variant_is_best(hay, items, items.len() as int, j);
    let p = choose|p: (int, int)| is_best_among(hay, items, items.len() as int, p.0, p.1);
    let fj = first_occurrence(hay, encode_utf8(items[j].0));
    assert(fj is Some);
}

/// Where one of the first `upto` variants stands in the text, one of them is
/// the best.
proof fn lemma_some_variant_is_best(
    hay: Seq<u8>,
    items: Seq<(Seq<char>, Seq<char>)>,
    upto: int,
    j: int,
)
    requires
        0 <= j < upto <= items.len(),
        first_occurrence(hay, encode_utf8(items[j].0)) is Some,
        first_occurrence(hay, encode_utf8(items[j].0))->0 < hay.len(),
    ensures
        exists|p: (int, int)| is_best_among(hay, items, upto, p.0, p.1),
    decreases upto,
{
    let last = upto - 1;
    let found = first_occurrence(hay, encode_utf8(items[last].0));
    let earlier = exists|i: int|
        0 <= i < last && (#[trigger] first_occurrence(hay, encode_utf8(items[i].0))) is Some
            && first_occurrence(hay, encode_utf8(items[i].0))->0 < hay.len();
    if earlier {
        let i = choose|i: int|
            0 <= i < last && (#[trigger] first_occurrence(hay, encode_utf8(items[i].0))) is Some
                && first_occurrence(hay, encode_utf8(items[i].0))->0 < hay.len();
        lemma_some_variant_is_best(hay, items, last, i);
        let p = choose|p: (int, int)| is_best_among(hay, items, last, p.0, p.1);
        if found is Some && found->0 < p.1 {
            assert(is_best_among(hay, items, upto, (last, found->0).0, (last, found->0).1));
        } else {
            assert(is_best_among(hay, items, upto, p.0, p.1));
        }
    } else {
        assert(j == last);
        assert forall|i: int| 0 <= i < upto implies match #[trigger] first_occurrence(
            hay,
            encode_utf8(items[i].0),
        ) {
            Some(x) => found->0 < x || (found->0 == x && last <= i),
            None => true,
        } by {
            if i < last {
                let fi = first_occurrence(hay, encode_utf8(items[i].0));
                if fi is Some {
                    assert(fi->0 >= hay.len());
                }
            }
        }
        assert(is_best_among(hay, items, upto, (last, found->0).0, (last, found->0).1));
    }
}

impl<'a> Replacer for PreserveCaseReplacer<'a> {
    open spec fn model(&self) -> QueryView {
        QueryView::PreserveCase { items: pairs_view(self.items@) }
    }

    fn replace(&self, buff: &str) -> (found: Option<(usize, String, String)>) {
        // A match of a later variant at a smaller offset must win over an
        // earlier variant's match further right: the fragments of a line are
        // produced from left to right.
        let ghost hay = buff.spec_bytes();
        let ghost items = pairs_view(self.items@);
        let mut best_index: usize = byte_len(buff);
        let mut best_pattern: Option<usize> = None;
        let mut i: usize = 0;
        while i < self.items.len()
            invariant
                i <= self.items.len(),
                hay == buff.spec_bytes(),
                items == pairs_view(self.items@),
                items.len() == self.items@.len(),
                best_index <= hay.len(),
                match best_pattern {
                    Some(k) => {
                        &&& is_best_among(hay, items, i as int, k as int, best_index as int)
                        &&& is_char_boundary(hay, best_index as int)
                        &&& is_char_boundary(
                            hay,
                            best_index + encode_utf8(items[k as int].0).len(),
                        )
                        &&& occurs_at(hay, encode_utf8(items[k as int].0), best_index as int)
                    },
                    None => {
                        &&& best_index == hay.len()
                        &&& forall|j: int|
                            0 <= j < i ==> match #[trigger] first_occurrence(
                                hay,
                                encode_utf8(items[j].0),
                            ) {
                                Some(x) => hay.len() <= x,
                                None => true,
                            }
                    },
                },
            decreases self.items.len() - i,
        {
            let pattern = self.items[i].0.as_str();
            assert(pattern@ == items[i as int].0);
            match find_str(buff, pattern) {
                Some(index) => {
                    proof {
                        lemma_first_occurrence_is(hay, pattern.spec_bytes(), index as int);
                        encode_utf8_valid_utf8(buff@);
                        encode_utf8_valid_utf8(pattern@);
                        lemma_first_occurrence_on_boundaries(
                            hay,
                            pattern.spec_bytes(),
                            index as int,
                        );
                    }
                    if index < best_index {
                        best_index = index;
                        best_pattern = Some(i);
                    }
                },
                None => {
                    proof {
                        lemma_first_occurrence_none(hay, pattern.spec_bytes());
                    }
                },
            }
            i += 1;
        }
        match best_pattern {
            Some(k) => {
                proof {
                    lemma_best_variant_is(hay, items, k as int, best_index as int);
                }
                let item = &self.items[k];
                Some((best_index, item.0.clone(), item.1.clone()))
            },
            None => {
                proof {
                    lemma_best_variant_none(hay, items);
                }
                None
            },
        }
    }
}

/// Finds the leftmost match of a regex.
pub struct RegexReplacer<'a> {
    pub regex: &'a regex::Regex,
    pub replacement: &'a str,
}

impl<'a> RegexReplacer<'a> {
    pub fn new(regex: &'a regex::Regex, replacement: &'a str) -> (finder: Self)
        ensures
            *finder.regex == *regex,
            finder.replacement@ == replacement@,
    {
        Self { regex, replacement }
    }
}

impl<'a> Replacer for RegexReplacer<'a> {
    open spec fn model(&self) -> QueryView {
        QueryView::Regex { regex: *self.regex, template: self.replacement@ }
    }

    fn replace(&self, buff: &str) -> (found: Option<(usize, String, String)>) {
        if holds_reference(self.replacement) {
            match regex_expand(self.regex, buff, self.replacement) {
                Some((start, end, output)) => Some(regex_hit(buff, start, end, output)),
                None => None,
            }
        } else {
            match regex_find(self.regex, buff) {
                Some((start, end)) => Some(
                    regex_hit(buff, start, end, self.replacement.to_owned()),
                ),
                None => None,
            }
        }
    }
}

/// What is left of a line from byte offset `cursor` on.
pub open spec fn rest_of(line: Seq<char>, cursor: int) -> Seq<char> {
    let bytes = encode_utf8(line);
    decode_utf8(bytes.subrange(cursor, bytes.len() as int))
}

/// The fragments of a line from byte offset `cursor` on, where the output
/// line has reached byte offset `out_cursor`: the next match in the rest of
/// the line, then the fragments behind that match. A match of no length ends
/// the search, and so does the end of the matches.
pub open spec fn scan(query: QueryView, line: Seq<char>, cursor: int, out_cursor: int) -> Seq<
    (FragmentView, FragmentView),
>
    decreases encode_utf8(line).len() - cursor,
{
    let bytes = encode_utf8(line);
    if cursor < 0 || cursor > bytes.len() {
        Seq::empty()
    } else {
        match next_match(query, rest_of(line, cursor)) {
            Some(hit) => {
                let taken = encode_utf8(hit.input).len();
                if hit.index < 0 || taken == 0 || cursor + hit.index + taken > bytes.len() {
                    Seq::empty()
                } else {
                    seq![
                        (
                            FragmentView { index: cursor + hit.index, text: hit.input },
                            FragmentView { index: out_cursor + hit.index, text: hit.output },
                        ),
                    ] + scan(
                        query,
                        line,
                        cursor + hit.index + taken,
                        out_cursor + hit.index + encode_utf8(hit.output).len(),
                    )
                }
            },
            None => Seq::empty(),
        }
    }
}

/// The byte offset in the input line at which the input fragment before
/// position `i` ends; 0 for the first position.
pub open spec fn end_before(frags: Seq<(FragmentView, FragmentView)>, i: int) -> int {
    if i <= 0 {
        0
    } else {
        frags[i - 1].0.index + encode_utf8(frags[i - 1].0.text).len()
    }
}

/// The input fragment at position `i` stands in the line where it says,
/// between two character boundaries, not before the end of the one before it,
/// and it is not empty.
pub open spec fn fits_at(bytes: Seq<u8>, frags: Seq<(FragmentView, FragmentView)>, i: int) -> bool {
    let f = frags[i].0;
    &&& end_before(frags, i) <= f.index
    &&& encode_utf8(f.text).len() > 0
    &&& occurs_at(bytes, encode_utf8(f.text), f.index)
    &&& is_char_boundary(bytes, f.index)
    &&& is_char_boundary(bytes, f.index + encode_utf8(f.text).len())
}

/// The input fragments are in ascending order, do not overlap, and each
/// stands in the line where it says.
pub open spec fn fragments_fit(bytes: Seq<u8>, frags: Seq<(FragmentView, FragmentView)>) -> bool {
    forall|i: int| 0 <= i < frags.len() ==> #[trigger] fits_at(bytes, frags, i)
}

/// The output line up to the end of the output fragment before position `n`:
/// the text of the input line between the matches, and in place of each match
/// the text of its output fragment.
pub open spec fn spliced_upto(
    bytes: Seq<u8>,
    frags: Seq<(FragmentView, FragmentView)>,
    n: int,
) -> Seq<u8>
    decreases n,
{
    if n <= 0 {
        Seq::empty()
    } else {
        spliced_upto(bytes, frags, n - 1) + bytes.subrange(
            end_before(frags, n - 1),
            frags[n - 1].0.index,
        ) + encode_utf8(frags[n - 1].1.text)
    }
}

/// The output line: the input line with the span of each input fragment
/// replaced by the text of its output fragment, and everything else kept.
pub open spec fn spliced(bytes: Seq<u8>, frags: Seq<(FragmentView, FragmentView)>) -> Seq<u8> {
    spliced_upto(bytes, frags, frags.len() as int) + bytes.subrange(
        end_before(frags, frags.len() as int),
        bytes.len() as int,
    )
}

/// Each output fragment says where its text starts in the output line.
pub open spec fn outputs_placed(bytes: Seq<u8>, frags: Seq<(FragmentView, FragmentView)>) -> bool {
    forall|i: int|
        0 <= i < frags.len() ==> (#[trigger] frags[i]).1.index == spliced_upto(bytes, frags, i).len()
            + frags[i].0.index - end_before(frags, i)
}

/// One more fragment at the end changes nothing of what the fragments before
/// it make of the line.
pub proof fn lemma_spliced_upto_push(
    bytes: Seq<u8>,
    frags: Seq<(FragmentView, FragmentView)>,
    pair: (FragmentView, FragmentView),
    n: int,
)
    requires
        n <= frags.len(),
    ensures
        spliced_upto(bytes, frags.push(pair), n) == spliced_upto(bytes, frags, n),
        end_before(frags.push(pair), n) == end_before(frags, n),
    decreases n,
{
    if n > 0 {
        lemma_spliced_upto_push(bytes, frags, pair, n - 1);
        assert(frags.push(pair)[n - 1] == frags[n - 1]);
    }
}

/// Runs a finder over a line from left to right. Gives the fragments, and
/// the output line that they make of the input line.
pub fn get_fragments_with_finder<R: Replacer>(input: &str, finder: R) -> (res: (Fragments, String))
    ensures
        res.0@ == scan(finder.model(), input@, 0, 0),
        fragments_fit(encode_utf8(input@), res.0@),
        outputs_placed(encode_utf8(input@), res.0@),
        encode_utf8(res.1@) == spliced(encode_utf8(input@), res.0@),
        res.0@.len() <= encode_utf8(input@).len(),
{
    // Each step searches what is left of the line behind the last match:
    //
    // step | rest                     | input fragment | output fragment
    // -----|--------------------------|----------------|----------------
    //    0 | "my tea is the best tea" |     (3, "tea") |  (3, "coffee")
    //    1 | " is the best tea"       |    (19, "tea") | (22, "coffee")
    //    2 | ""                       |      n/a       | n/a
    let ghost bytes = input.spec_bytes();
    let ghost model = finder.model();
    let len = byte_len(input);
    let mut fragments = Fragments::new();
    let mut output = String::new();
    let mut input_index: usize = 0;
    proof {
        encode_utf8_valid_utf8(input@);
        is_char_boundary_start_end_of_seq(bytes);
        assert(scan(model, input@, 0, 0) =~= fragments@ + scan(model, input@, 0, 0));
    }
    loop
        invariant
            bytes == encode_utf8(input@),
            model == finder.model(),
            len == bytes.len(),
            valid_utf8(bytes),
            input_index <= len,
            is_char_boundary(bytes, input_index as int),
            input_index == end_before(fragments@, fragments@.len() as int),
            scan(model, input@, 0, 0) == fragments@ + scan(
                model,
                input@,
                input_index as int,
                encode_utf8(output@).len() as int,
            ),
            fragments_fit(bytes, fragments@),
            outputs_placed(bytes, fragments@),
            encode_utf8(output@) == spliced_upto(bytes, fragments@, fragments@.len() as int),
            fragments@.len() <= input_index,
        ensures
            scan(model, input@, input_index as int, encode_utf8(output@).len() as int).len() == 0,
        decreases len - input_index,
    {
        let rest = suffix(input, input_index);
        let ghost rest_bytes = rest.spec_bytes();
        proof {
            valid_utf8_split(bytes, input_index as int);
            is_char_boundary_start_end_of_seq(rest_bytes);
        }
        match finder.replace(rest) {
            None => {
                break ;
            },
            Some((index, input_text, output_text)) => {
                let taken = byte_len(input_text.as_str());
                if taken == 0 {
                    break ;
                }
                let ghost old_frags = fragments@;
                let ghost n = old_frags.len() as int;
                proof {
                    lemma_boundary_in_suffix(bytes, input_index as int, index as int);
                    lemma_boundary_in_suffix(bytes, input_index as int, index + taken);
                }
                let gap = between(rest, 0, index);
                push_text(&mut output, gap);
                let input_at: usize = input_index + index;
                let output_at: usize = byte_len(output.as_str());
                fragments.add((input_at, input_text.as_str()), (output_at, output_text.as_str()));
                push_text(&mut output, output_text.as_str());
                let ghost pair = (
                    FragmentView { index: input_at as int, text: input_text@ },
                    FragmentView { index: output_at as int, text: output_text@ },
                );
                proof {
                    let new_frags = fragments@;
                    assert(new_frags == old_frags.push(pair));
                    lemma_spliced_upto_push(bytes, old_frags, pair, n);
                    assert(rest_bytes.subrange(0, index as int) =~= bytes.subrange(
                        input_index as int,
                        input_at as int,
                    ));
                    assert(rest_bytes.subrange(index as int, index + taken) =~= bytes.subrange(
                        input_at as int,
                        input_at + taken,
                    ));
                    assert(new_frags[n] == pair);
                    assert(encode_utf8(output@) == spliced_upto(bytes, new_frags, n + 1));
                    assert forall|i: int| 0 <= i < new_frags.len() implies #[trigger] fits_at(
                        bytes,
                        new_frags,
                        i,
                    ) by {
                        if i < n {
                            assert(fits_at(bytes, old_frags, i));
                            assert(new_frags[i] == old_frags[i]);
                            if i > 0 {
                                assert(new_frags[i - 1] == old_frags[i - 1]);
                            }
                        }
                    }
                    assert forall|i: int| 0 <= i < new_frags.len() implies (
                    #[trigger] new_frags[i]).1.index == spliced_upto(bytes, new_frags, i).len()
                        + new_frags[i].0.index - end_before(new_frags, i) by {
                        lemma_spliced_upto_push(bytes, old_frags, pair, i);
                        if i < n {
                            assert(new_frags[i] == old_frags[i]);
                        }
                    }
                    assert(scan(model, input@, 0, 0) =~= new_frags + scan(
                        model,
                        input@,
                        input_at + taken,
                        encode_utf8(output@).len() as int,
                    ));
                }
                input_index = input_at + taken;
            },
        }
    }
    proof {
        assert(scan(model, input@, 0, 0) =~= fragments@);
    }
    push_text(&mut output, suffix(input, input_index));
    (fragments, output)
}

/// The fragments of a line for a query, and the output line.
pub fn get_fragments(input: &str, query: &Query) -> (res: (Fragments, String))
    ensures
        res.0@ == scan(query@, input@, 0, 0),
        fragments_fit(encode_utf8(input@), res.0@),
        outputs_placed(encode_utf8(input@), res.0@),
        encode_utf8(res.1@) == spliced(encode_utf8(input@), res.0@),
        res.0@.len() <= encode_utf8(input@).len(),
{
    match query {
        Query::Simple(pattern, replacement) => {
            let finder = SubstringReplacer::new(pattern.as_str(), replacement.as_str());
            get_fragments_with_finder(input, finder)
        },
        Query::Regex(regex, replacement) => {
            let finder = RegexReplacer::new(regex, replacement.as_str());
            get_fragments_with_finder(input, finder)
        },
        Query::PreserveCase(items) => {
            let finder = PreserveCaseReplacer::new(items);
            get_fragments_with_finder(input, finder)
        },
    }
}

/// Builds the output line from the input line and its fragments: the text
/// between the input fragments is copied, and in place of each input fragment
/// stands the text of its output fragment. This is the line that `replace`
/// gives with these fragments.
pub fn get_output(input: &str, fragments: &Fragments) -> (output: String)
    requires
        fragments_fit(encode_utf8(input@), fragments@),
    ensures
        encode_utf8(output@) == spliced(encode_utf8(input@), fragments@),
{
    let ghost bytes = input.spec_bytes();
    let len = byte_len(input);
    let mut current_index: usize = 0;
    let mut output = String::new();
    let mut k: usize = 0;
    proof {
        encode_utf8_valid_utf8(input@);
        is_char_boundary_start_end_of_seq(bytes);
    }
    while k < fragments.len()
        invariant
            bytes == encode_utf8(input@),
            len == bytes.len(),
            valid_utf8(bytes),
            fragments_fit(bytes, fragments@),
            k <= fragments@.len(),
            current_index == end_before(fragments@, k as int),
            current_index <= bytes.len(),
            is_char_boundary(bytes, current_index as int),
            encode_utf8(output@) == spliced_upto(bytes, fragments@, k as int),
        decreases fragments@.len() - k,
    {
        let pair = fragments.get(k);
        assert(fits_at(bytes, fragments@, k as int));
        let input_index: usize = pair.0.index;
        push_text(&mut output, between(input, current_index, input_index));
        push_text(&mut output, pair.1.text.as_str());
        current_index = input_index + byte_len(pair.0.text.as_str());
        k += 1;
    }
    push_text(&mut output, suffix(input, current_index));
    output
}

/// What a query made of one line: the fragments, the input line and the
/// output line.
#[derive(Debug)]
pub struct Replacement {
    fragments: Fragments,
    input: String,
    output: String,
}

impl Replacement {
    /// The pairs of fragments, as plain values.
    pub closed spec fn fragment_views(&self) -> Seq<(FragmentView, FragmentView)> {
        self.fragments@
    }

    /// The input line, as characters.
    pub closed spec fn input_view(&self) -> Seq<char> {
        self.input@
    }

    /// The output line, as characters.
    pub closed spec fn output_view(&self) -> Seq<char> {
        self.output@
    }

    /// There is at least one fragment; the input fragments are in ascending
    /// order, do not overlap and stand in the input line; the output line is
    /// the input line with each of them replaced by its output fragment, and
    /// each output fragment says where it stands in the output line. This
    /// holds of every replacement that exists.
    #[verifier::type_invariant]
    pub open spec fn wf(&self) -> bool {
        let bytes = encode_utf8(self.input_view());
        &&& self.fragment_views().len() > 0
        &&& fragments_fit(bytes, self.fragment_views())
        &&& outputs_placed(bytes, self.fragment_views())
        &&& encode_utf8(self.output_view()) == spliced(bytes, self.fragment_views())
    }

    /// The output line.
    pub fn output(&self) -> (line: &str)
        ensures
            line@ == self.output_view(),
    {
        self.output.as_str()
    }

    /// The input line.
    pub fn input(&self) -> (line: &str)
        ensures
            line@ == self.input_view(),
    {
        self.input.as_str()
    }

    /// The number of fragments that were replaced.
    pub fn num_fragments(&self) -> (n: usize)
        ensures
            n == self.fragment_views().len(),
    {
        self.fragments.len()
    }

    /// The pairs of fragments.
    pub fn fragments(&self) -> (fragments: &Fragments)
        ensures
            fragments@ == self.fragment_views(),
    {
        &self.fragments
    }
}

/// Executes a query on a line of input. Where something matched, the result
/// holds the fragments and the output line; where nothing did, there is none.
pub fn replace(input: &str, query: &Query) -> (res: Option<Replacement>)
    ensures
        match res {
            Some(replacement) => {
                &&& replacement.input_view() == input@
                &&& replacement.fragment_views() == scan(query@, input@, 0, 0)
                &&& replacement.output_view() == decode_utf8(
                    spliced(encode_utf8(input@), scan(query@, input@, 0, 0)),
                )
                &&& replacement.fragment_views().len() <= encode_utf8(input@).len()
                &&& replacement.wf()
            },
            None => scan(query@, input@, 0, 0).len() == 0,
        },
{
    // The search depends on the kind of query. It hands out the output line
    // with the fragments: to say where an output fragment starts it has to
    // know how long the output line is so far, and the length of a text
    // that exists cannot overflow.
    let (fragments, output) = get_fragments(input, query);
    if fragments.is_empty() {
        return None;
    }
    proof {
        encode_utf8_decode_utf8(output@);
    }
    Some(Replacement { fragments, input: input.to_owned(), output })
}

/// The byte offsets at which `old` stands in `hay` from `from` on, taken
/// from left to right, each behind the end of the one before it.
pub open spec fn occurrences(hay: Seq<u8>, old: Seq<u8>, from: int) -> Seq<int>
    decreases hay.len() - from,
{
    if from < 0 || from > hay.len() || old.len() == 0 {
        Seq::empty()
    } else {
        match first_occurrence(hay.subrange(from, hay.len() as int), old) {
            Some(at) => {
                if at < 0 || from + at + old.len() > hay.len() {
                    Seq::empty()
                } else {
                    seq![from + at] + occurrences(hay, old, from + at + old.len())
                }
            },
            None => Seq::empty(),
        }
    }
}

/// The fragments of a literal query stand at the occurrences of the literal.
pub open spec fn at_occurrences(
    frags: Seq<(FragmentView, FragmentView)>,
    places: Seq<int>,
    old: Seq<char>,
    new: Seq<char>,
) -> bool {
    &&& frags.len() == places.len()
    &&& forall|k: int|
        0 <= k < frags.len() ==> {
            &&& (#[trigger] frags[k]).0 == (FragmentView { index: places[k], text: old })
            &&& frags[k].1.text == new
        }
}

/// From a character boundary on, a literal query finds every occurrence of
/// `old` that does not overlap an earlier one, and pairs each with `new`.
pub proof fn lemma_literal_scan(
    line: Seq<char>,
    old: Seq<char>,
    new: Seq<char>,
    cursor: int,
    out_cursor: int,
)
    requires
        0 <= cursor <= encode_utf8(line).len(),
        is_char_boundary(encode_utf8(line), cursor),
    ensures
        at_occurrences(
            scan(QueryView::Simple { old, new }, line, cursor, out_cursor),
            occurrences(encode_utf8(line), encode_utf8(old), cursor),
            old,
            new,
        ),
    decreases encode_utf8(line).len() - cursor,
{
    let query = QueryView::Simple { old, new };
    let bytes = encode_utf8(line);
    let pat = encode_utf8(old);
    let rest = bytes.subrange(cursor, bytes.len() as int);
    encode_utf8_valid_utf8(line);
    encode_utf8_valid_utf8(old);
    valid_utf8_split(bytes, cursor);
    decode_utf8_encode_utf8(rest);
    assert(encode_utf8(rest_of(line, cursor)) == rest);
    let frags = scan(query, line, cursor, out_cursor);
    let places = occurrences(bytes, pat, cursor);
    match first_occurrence(rest, pat) {
        Some(at) => {
            assert(is_first_occurrence(rest, pat, at));
            if pat.len() > 0 {
                let next = cursor + at + pat.len();
                lemma_occurrence_on_boundaries(rest, pat, at);
                lemma_boundary_in_suffix(bytes, cursor, at + pat.len());
                let next_out = out_cursor + at + encode_utf8(new).len();
                lemma_literal_scan(line, old, new, next, next_out);
                let more = scan(query, line, next, next_out);
                let more_places = occurrences(bytes, pat, next);
                assert(places == seq![cursor + at] + more_places);
                assert(frags == seq![
                    (
                        FragmentView { index: cursor + at, text: old },
                        FragmentView { index: out_cursor + at, text: new },
                    ),
                ] + more);
                assert forall|k: int| 0 <= k < frags.len() implies {
                    &&& (#[trigger] frags[k]).0 == (FragmentView { index: places[k], text: old })
                    &&& frags[k].1.text == new
                } by {
                    if k > 0 {
                        assert(frags[k] == more[k - 1]);
                        assert(places[k] == more_places[k - 1]);
                    }
                }
            }
        },
        None => {},
    }
}

/// For a literal query, a line has one fragment for each occurrence of `old`
/// that does not overlap an earlier one: the input fragment is `old` at the
/// place of the occurrence, the output fragment holds `new`. The output line
/// of `replace` is the input line with these fragments replaced.
pub proof fn lemma_literal_replaces_every_occurrence(
    line: Seq<char>,
    old: Seq<char>,
    new: Seq<char>,
)
    ensures
        at_occurrences(
            scan(QueryView::Simple { old, new }, line, 0, 0),
            occurrences(encode_utf8(line), encode_utf8(old), 0),
            old,
            new,
        ),
{
    encode_utf8_valid_utf8(line);
    is_char_boundary_start_end_of_seq(encode_utf8(line));
    lemma_literal_scan(line, old, new, 0, 0);
}

/// The byte offsets of the output fragments in the output line.
pub open spec fn output_places(frags: Seq<(FragmentView, FragmentView)>) -> Seq<int> {
    Seq::new(frags.len(), |k: int| frags[k].1.index)
}

/// The output line up to one fragment is the beginning of the output line up
/// to a later one.
pub proof fn lemma_spliced_upto_prefix(
    bytes: Seq<u8>,
    frags: Seq<(FragmentView, FragmentView)>,
    j: int,
    n: int,
)
    requires
        0 <= j <= n,
    ensures
        spliced_upto(bytes, frags, j).len() <= spliced_upto(bytes, frags, n).len(),
        spliced_upto(bytes, frags, n).subrange(0, spliced_upto(bytes, frags, j).len() as int)
            == spliced_upto(bytes, frags, j),
    decreases n - j,
{
    let short = spliced_upto(bytes, frags, j);
    let long = spliced_upto(bytes, frags, n);
    if j < n {
        lemma_spliced_upto_prefix(bytes, frags, j, n - 1);
        let before = spliced_upto(bytes, frags, n - 1);
        assert(long.subrange(0, short.len() as int) =~= before.subrange(0, short.len() as int));
    } else {
        assert(long.subrange(0, short.len() as int) =~= short);
    }
}

/// `back` undoes `there`: it has one fragment for each fragment of `there`,
/// which stands where the output fragment stands and holds the texts the
/// other way round.
pub open spec fn undoes(
    back: Seq<(FragmentView, FragmentView)>,
    there: Seq<(FragmentView, FragmentView)>,
    old: Seq<char>,
    new: Seq<char>,
) -> bool {
    &&& back.len() == there.len()
    &&& forall|k: int|
        0 <= k < there.len() ==> {
            &&& (#[trigger] there[k]).0.text == old
            &&& there[k].1.text == new
            &&& (#[trigger] back[k]).0 == (FragmentView { index: there[k].1.index, text: new })
            &&& back[k].1.text == old
        }
}

/// One more fragment undone: where the first `k` fragments of `back` give
/// back the line up to the end of fragment `k - 1`, the first `k + 1` give it
/// back up to the end of fragment `k`.
proof fn lemma_undone_step(
    bytes: Seq<u8>,
    there: Seq<(FragmentView, FragmentView)>,
    back: Seq<(FragmentView, FragmentView)>,
    old: Seq<char>,
    new: Seq<char>,
    k: int,
)
    requires
        0 <= k < there.len(),
        back.len() == there.len(),
        fits_at(bytes, there, k),
        there[k].1.index == spliced_upto(bytes, there, k).len() + there[k].0.index - end_before(
            there,
            k,
        ),
        there[k].0.text == old,
        there[k].1.text == new,
        back[k].0 == (FragmentView { index: there[k].1.index, text: new }),
        back[k].1.text == old,
        0 <= end_before(there, k) <= bytes.len(),
        end_before(back, k) == spliced_upto(bytes, there, k).len(),
        spliced_upto(spliced(bytes, there), back, k) == bytes.subrange(0, end_before(there, k)),
    ensures
        0 <= end_before(there, k + 1) <= bytes.len(),
        end_before(back, k + 1) == spliced_upto(bytes, there, k + 1).len(),
        spliced_upto(spliced(bytes, there), back, k + 1) == bytes.subrange(
            0,
            end_before(there, k + 1),
        ),
{
    let out = spliced(bytes, there);
    let at = there[k].0.index;
    let start = end_before(there, k);
    let done = spliced_upto(bytes, there, k);
    let gap = bytes.subrange(start, at);
    let put = encode_utf8(new);
    let taken = encode_utf8(old);
    let upto = spliced_upto(bytes, there, k + 1);
    assert(upto == done + gap + put);
    lemma_spliced_upto_prefix(bytes, there, k + 1, there.len() as int);
    let full = spliced_upto(bytes, there, there.len() as int);
    assert(out.subrange(0, upto.len() as int) =~= full.subrange(0, upto.len() as int));
    assert(out.subrange(0, upto.len() as int) == upto);
    assert(out.subrange(done.len() as int, (done.len() + gap.len()) as int) =~= gap) by {
        assert forall|i: int| 0 <= i < gap.len() implies out[done.len() + i] == gap[i] by {
            assert(out[done.len() + i] == out.subrange(0, upto.len() as int)[done.len() + i]);
            assert(upto[done.len() + i] == gap[i]);
        }
    }
    assert(end_before(back, k + 1) == back[k].0.index + put.len());
    assert(bytes.subrange(at, at + taken.len()) == taken);
    assert(spliced_upto(out, back, k + 1) == spliced_upto(out, back, k) + out.subrange(
        end_before(back, k),
        back[k].0.index,
    ) + taken);
    assert(bytes.subrange(0, start) + gap + taken =~= bytes.subrange(0, at + taken.len()));
}

/// Fragments that undo the fragments of a line give back the line, as far as
/// the first `j` of them go.
pub proof fn lemma_undone_upto(
    bytes: Seq<u8>,
    there: Seq<(FragmentView, FragmentView)>,
    back: Seq<(FragmentView, FragmentView)>,
    old: Seq<char>,
    new: Seq<char>,
    j: int,
)
    requires
        fragments_fit(bytes, there),
        outputs_placed(bytes, there),
        undoes(back, there, old, new),
        0 <= j <= there.len(),
    ensures
        0 <= end_before(there, j) <= bytes.len(),
        end_before(back, j) == spliced_upto(bytes, there, j).len(),
        spliced_upto(spliced(bytes, there), back, j) == bytes.subrange(0, end_before(there, j)),
    decreases j,
{
    if j > 0 {
        let k = j - 1;
        lemma_undone_upto(bytes, there, back, old, new, k);
        assert(fits_at(bytes, there, k));
        let pair = there[k];
        let undo = back[k];
        assert(pair.1.index == spliced_upto(bytes, there, k).len() + pair.0.index - end_before(
            there,
            k,
        ));
        lemma_undone_step(bytes, there, back, old, new, k);
    } else {
        assert(spliced_upto(spliced(bytes, there), back, 0) =~= bytes.subrange(0, 0));
    }
}

/// Fragments that undo the fragments of a line give back the line.
pub proof fn lemma_undone(
    bytes: Seq<u8>,
    there: Seq<(FragmentView, FragmentView)>,
    back: Seq<(FragmentView, FragmentView)>,
    old: Seq<char>,
    new: Seq<char>,
)
    requires
        fragments_fit(bytes, there),
        outputs_placed(bytes, there),
        undoes(back, there, old, new),
    ensures
        spliced(spliced(bytes, there), back) == bytes,
{
    let n = there.len() as int;
    let out = spliced(bytes, there);
    lemma_undone_upto(bytes, there, back, old, new, n);
    let done = spliced_upto(bytes, there, n);
    let rest = bytes.subrange(end_before(there, n), bytes.len() as int);
    assert(out == done + rest);
    assert(out.subrange(done.len() as int, out.len() as int) =~= rest);
    assert(bytes.subrange(0, end_before(there, n)) + rest =~= bytes);
}

/// Fragments at the places of the output fragments of `there`, with the
/// texts the other way round, undo `there`.
pub proof fn lemma_undoes(
    there: Seq<(FragmentView, FragmentView)>,
    back: Seq<(FragmentView, FragmentView)>,
    places: Seq<int>,
    old: Seq<char>,
    new: Seq<char>,
)
    requires
        at_occurrences(there, places, old, new),
        at_occurrences(back, output_places(there), new, old),
    ensures
        undoes(back, there, old, new),
{
    assert forall|k: int| 0 <= k < there.len() implies {
        &&& (#[trigger] there[k]).0.text == old
        &&& there[k].1.text == new
        &&& (#[trigger] back[k]).0 == (FragmentView { index: there[k].1.index, text: new })
        &&& back[k].1.text == old
    } by {
        assert(output_places(there)[k] == there[k].1.index);
    }
}

/// A literal query and the query that swaps its two texts: where the second
/// finds in the output line of the first exactly the fragments that the first
/// put there, it gives back the input line, byte for byte.
pub proof fn lemma_literal_there_and_back(there: Replacement, old: Seq<char>, new: Seq<char>)
    requires
        there.wf(),
        there.fragment_views() == scan(QueryView::Simple { old, new }, there.input_view(), 0, 0),
        occurrences(encode_utf8(there.output_view()), encode_utf8(new), 0) == output_places(
            there.fragment_views(),
        ),
    ensures
        spliced(
            encode_utf8(there.output_view()),
            scan(QueryView::Simple { old: new, new: old }, there.output_view(), 0, 0),
        ) == encode_utf8(there.input_view()),
{
    let bytes = encode_utf8(there.input_view());
    let frags = there.fragment_views();
    let back = scan(QueryView::Simple { old: new, new: old }, there.output_view(), 0, 0);
    lemma_literal_replaces_every_occurrence(there.input_view(), old, new);
    lemma_literal_replaces_every_occurrence(there.output_view(), new, old);
    lemma_undoes(frags, back, occurrences(bytes, encode_utf8(old), 0), old, new);
    lemma_undone(bytes, frags, back, old, new);
}

/// A template that refers to nothing is put in place of every match of a
/// regex as it is.
pub proof fn lemma_plain_template_is_put(
    regex: regex::Regex,
    template: Seq<char>,
    line: Seq<char>,
    cursor: int,
    out_cursor: int,
)
    requires
        !has_reference(template),
    ensures
        forall|k: int|
            0 <= k < scan(QueryView::Regex { regex, template }, line, cursor, out_cursor).len()
                ==> (#[trigger] scan(
                QueryView::Regex { regex, template },
                line,
                cursor,
                out_cursor,
            )[k]).1.text == template,
    decreases encode_utf8(line).len() - cursor,
{
    let query = QueryView::Regex { regex, template };
    let bytes = encode_utf8(line);
    let frags = scan(query, line, cursor, out_cursor);
    if 0 <= cursor <= bytes.len() {
        match next_match(query, rest_of(line, cursor)) {
            Some(hit) => {
                let taken = encode_utf8(hit.input).len();
                if !(hit.index < 0 || taken == 0 || cursor + hit.index + taken > bytes.len()) {
                    let next = cursor + hit.index + taken;
                    let next_out = out_cursor + hit.index + encode_utf8(hit.output).len();
                    lemma_plain_template_is_put(regex, template, line, next, next_out);
                    let more = scan(query, line, next, next_out);
                    assert forall|k: int| 0 <= k < frags.len() implies (#[trigger] frags[k]).1.text
                        == template by {
                        if k > 0 {
                            assert(frags[k] == more[k - 1]);
                        }
                    }
                }
            },
            None => {},
        }
    }
}

} // verus!
