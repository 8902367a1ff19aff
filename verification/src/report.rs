//! A replacement laid out for display: the pieces of a line in order, with
//! the fragments marked.

use vstd::prelude::*;
use vstd::utf8::*;
use vstd::string::*;
use crate::replacer::{end_before, fits_at, fragments_fit, rest_of, FragmentView, Replacement};
use crate::text::{between, byte_len, suffix};

verus! {

/// One piece of a line as it is shown: a stretch of text, marked where it is
/// a fragment.
#[derive(Debug)]
pub struct Piece {
    pub text: String,
    pub marked: bool,
}

/// A piece as plain values.
pub struct PieceView {
    pub text: Seq<char>,
    pub marked: bool,
}

impl View for Piece {
    type V = PieceView;

    open spec fn view(&self) -> PieceView {
        PieceView { text: self.text@, marked: self.marked }
    }
}

/// The pieces of a list, each as plain values.
pub open spec fn pieces_view(pieces: Seq<Piece>) -> Seq<PieceView> {
    Seq::new(pieces.len(), |i: int| pieces[i]@)
}

/// What `str::trim_start` leaves of a text.
pub uninterp spec fn trimmed_start(text: Seq<char>) -> Seq<char>;

/// Calls `str::trim_start`; the result is a function of the argument, named
/// `trimmed_start`.
#[verifier::external_body]
fn trim_start(text: &str) -> (res: &str)
    ensures
        res@ == trimmed_start(text@),
{
    text.trim_start()
}

/// A text ends with a newline, which is the byte 10.
pub open spec fn ends_with_newline(text: Seq<char>) -> bool {
    let bytes = encode_utf8(text);
    bytes.len() > 0 && bytes.last() == 10u8
}

/// Whether a text ends with a newline.
pub fn has_final_newline(text: &str) -> (res: bool)
    ensures
        res == ends_with_newline(text@),
{
    let bytes = text.as_bytes();
    let len = bytes.len();
    len > 0 && bytes[len - 1] == 10u8
}

/// The text of the input line between the fragment before position `k` and
/// the fragment at position `k`; in front of the first fragment, without the
/// white space that it starts with.
pub open spec fn shown_gap(
    line: Seq<char>,
    frags: Seq<(FragmentView, FragmentView)>,
    k: int,
) -> Seq<char> {
    let gap = decode_utf8(encode_utf8(line).subrange(end_before(frags, k), frags[k].0.index));
    if k == 0 {
        trimmed_start(gap)
    } else {
        gap
    }
}

/// The text of the fragment at position `k` on one side.
pub open spec fn shown_fragment(
    frags: Seq<(FragmentView, FragmentView)>,
    k: int,
    output: bool,
) -> Seq<char> {
    if output {
        frags[k].1.text
    } else {
        frags[k].0.text
    }
}

/// The pieces up to the end of the fragment before position `n`.
pub open spec fn pieces_upto(
    line: Seq<char>,
    frags: Seq<(FragmentView, FragmentView)>,
    output: bool,
    n: int,
) -> Seq<PieceView>
    decreases n,
{
    if n <= 0 {
        Seq::empty()
    } else {
        pieces_upto(line, frags, output, n - 1).push(
            PieceView { text: shown_gap(line, frags, n - 1), marked: false },
        ).push(PieceView { text: shown_fragment(frags, n - 1, output), marked: true })
    }
}

/// The pieces of one side of a replacement. Each fragment is a marked piece;
/// in front of it stands the text that the input line holds there; behind the
/// last one stands the rest of the input line. Where the line that is shown
/// has no newline at its end, a last piece holds one.
pub open spec fn pieces_of(
    line: Seq<char>,
    frags: Seq<(FragmentView, FragmentView)>,
    output: bool,
    shown: Seq<char>,
) -> Seq<PieceView> {
    let body = pieces_upto(line, frags, output, frags.len() as int).push(
        PieceView { text: rest_of(line, end_before(frags, frags.len() as int)), marked: false },
    );
    if ends_with_newline(shown) {
        body
    } else {
        body.push(PieceView { text: "\n"@, marked: false })
    }
}

/// Lays out one side of a replacement for display: the input line with the
/// fragments that matched, or the output line with the fragments that took
/// their place.
pub fn display_pieces(replacement: &Replacement, output: bool) -> (pieces: Vec<Piece>)
    ensures
        pieces_view(pieces@) == pieces_of(
            replacement.input_view(),
            replacement.fragment_views(),
            output,
            if output {
                replacement.output_view()
            } else {
                replacement.input_view()
            },
        ),
{
    proof {
        use_type_invariant(replacement);
    }
    let line = replacement.input();
    let fragments = replacement.fragments();
    let ghost bytes = line.spec_bytes();
    let ghost frags = fragments@;
    let len = byte_len(line);
    let mut pieces: Vec<Piece> = Vec::new();
    let mut current_index: usize = 0;
    let mut k: usize = 0;
    proof {
        encode_utf8_valid_utf8(line@);
        is_char_boundary_start_end_of_seq(bytes);
        assert(pieces_view(pieces@) =~= pieces_upto(line@, frags, output, 0));
    }
    while k < fragments.len()
        invariant
            bytes == encode_utf8(line@),
            frags == fragments@,
            len == bytes.len(),
            valid_utf8(bytes),
            fragments_fit(bytes, frags),
            k <= frags.len(),
            current_index == end_before(frags, k as int),
            current_index <= len,
            is_char_boundary(bytes, current_index as int),
            pieces_view(pieces@) == pieces_upto(line@, frags, output, k as int),
        decreases frags.len() - k,
    {
        let pair = fragments.get(k);
        assert(fits_at(bytes, frags, k as int));
        let ghost before = pieces_view(pieces@);
        let gap = between(line, current_index, pair.0.index);
        let gap = if k == 0 {
            trim_start(gap)
        } else {
            gap
        };
        pieces.push(Piece { text: gap.to_owned(), marked: false });
        let text = if output {
            pair.1.text.clone()
        } else {
            pair.0.text.clone()
        };
        pieces.push(Piece { text, marked: true });
        current_index = pair.0.index + byte_len(pair.0.text.as_str());
        proof {
            assert(pieces_view(pieces@) =~= before.push(
                PieceView { text: shown_gap(line@, frags, k as int), marked: false },
            ).push(PieceView { text: shown_fragment(frags, k as int, output), marked: true }));
        }
        k += 1;
    }
    let ghost before = pieces_view(pieces@);
    pieces.push(Piece { text: suffix(line, current_index).to_owned(), marked: false });
    proof {
        assert(pieces_view(pieces@) =~= before.push(
            PieceView { text: rest_of(line@, current_index as int), marked: false },
        ));
    }
    let shown = if output {
        replacement.output()
    } else {
        replacement.input()
    };
    if !has_final_newline(shown) {
        let ghost body = pieces_view(pieces@);
        pieces.push(Piece { text: "\n".to_owned(), marked: false });
        proof {
            assert(pieces_view(pieces@) =~= body.push(PieceView { text: "\n"@, marked: false }));
        }
    }
    pieces
}

} // verus!
