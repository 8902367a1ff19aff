//! Strings seen as UTF-8 bytes: offsets into a line are byte offsets that fall
//! on character boundaries, as `str` itself has them.

use vstd::prelude::*;
use vstd::utf8::*;
use vstd::string::*;

verus! {

/// `pat` stands in `hay` at byte offset `i`.
pub open spec fn occurs_at(hay: Seq<u8>, pat: Seq<u8>, i: int) -> bool {
    &&& 0 <= i
    &&& i + pat.len() <= hay.len()
    &&& hay.subrange(i, i + pat.len()) == pat
}

/// `i` is the smallest byte offset at which `pat` stands in `hay`.
pub open spec fn is_first_occurrence(hay: Seq<u8>, pat: Seq<u8>, i: int) -> bool {
    &&& occurs_at(hay, pat, i)
    &&& forall|j: int| 0 <= j < i ==> !occurs_at(hay, pat, j)
}

/// The smallest byte offset at which `pat` stands in `hay`, if there is one.
pub open spec fn first_occurrence(hay: Seq<u8>, pat: Seq<u8>) -> Option<int> {
    if exists|i: int| is_first_occurrence(hay, pat, i) {
        Some(choose|i: int| is_first_occurrence(hay, pat, i))
    } else {
        None
    }
}

/// A first occurrence is the first occurrence.
pub proof fn lemma_first_occurrence_is(hay: Seq<u8>, pat: Seq<u8>, i: int)
    requires
        is_first_occurrence(hay, pat, i),
    ensures
        first_occurrence(hay, pat) == Some(i),
{
    let j = choose|j: int| is_first_occurrence(hay, pat, j);
    assert(is_first_occurrence(hay, pat, j));
    if j < i {
        assert(!occurs_at(hay, pat, j));
    }
    if i < j {
        assert(!occurs_at(hay, pat, i));
    }
}

/// Where the pattern stands nowhere, there is no first occurrence.
pub proof fn lemma_first_occurrence_none(hay: Seq<u8>, pat: Seq<u8>)
    requires
        forall|j: int| !occurs_at(hay, pat, j),
    ensures
        first_occurrence(hay, pat) is None,
{
}

/// The encoding of a concatenation is the concatenation of the encodings.
pub proof fn lemma_encode_concat(a: Seq<char>, b: Seq<char>)
    ensures
        encode_utf8(a + b) == encode_utf8(a) + encode_utf8(b),
    decreases a.len(),
{
    if a.len() == 0 {
        assert(a + b =~= b);
        assert(encode_utf8(a) + encode_utf8(b) =~= encode_utf8(b));
    } else {
        lemma_encode_concat(a.drop_first(), b);
        assert((a + b).drop_first() =~= a.drop_first() + b);
        assert((a + b)[0] == a[0]);
        assert(encode_utf8(a + b) =~= encode_utf8(a) + encode_utf8(b));
    }
}

/// A character boundary of a suffix is one of the whole text.
pub proof fn lemma_boundary_in_suffix(bytes: Seq<u8>, at: int, k: int)
    requires
        valid_utf8(bytes),
        is_char_boundary(bytes, at),
        0 <= at <= bytes.len(),
        is_char_boundary(bytes.subrange(at, bytes.len() as int), k),
        0 <= k,
    ensures
        at + k <= bytes.len(),
        is_char_boundary(bytes, at + k),
{
    let tail = bytes.subrange(at, bytes.len() as int);
    valid_utf8_split(bytes, at);
    is_char_boundary_start_end_of_seq(bytes);
    if k == 0 {
    } else {
        assert(k <= tail.len());
        if k < tail.len() {
            is_char_boundary_iff_not_is_continuation_byte(tail, k);
            is_char_boundary_iff_not_is_continuation_byte(bytes, at + k);
            assert(tail[k] == bytes[at + k]);
        }
    }
}

/// A character boundary of the whole text that lies in a prefix is one of the
/// prefix.
pub proof fn lemma_boundary_in_prefix(bytes: Seq<u8>, a: int, b: int)
    requires
        valid_utf8(bytes),
        0 <= a <= b <= bytes.len(),
        is_char_boundary(bytes, a),
        is_char_boundary(bytes, b),
    ensures
        is_char_boundary(bytes.subrange(0, b), a),
{
    let head = bytes.subrange(0, b);
    valid_utf8_split(bytes, b);
    is_char_boundary_start_end_of_seq(head);
    if a < b {
        is_char_boundary_iff_not_is_continuation_byte(head, a);
        is_char_boundary_iff_not_is_continuation_byte(bytes, a);
        assert(head[a] == bytes[a]);
    }
}

/// Where a text and a prefix of it are both valid UTF-8, the prefix ends on
/// a character boundary of the text.
pub proof fn lemma_valid_prefix_ends_on_boundary(bytes: Seq<u8>, n: int)
    requires
        valid_utf8(bytes),
        0 <= n <= bytes.len(),
        valid_utf8(bytes.subrange(0, n)),
    ensures
        is_char_boundary(bytes, n),
    decreases n,
{
    if n > 0 {
        let head = bytes.subrange(0, n);
        assert(head[0] == bytes[0]);
        let first = length_of_first_scalar(bytes);
        assert(length_of_first_scalar(head) == first);
        assert(first <= n);
        assert(pop_first_scalar(head) =~= pop_first_scalar(bytes).subrange(0, n - first));
        lemma_valid_prefix_ends_on_boundary(pop_first_scalar(bytes), n - first);
    }
}

/// A text that stands in another one starts and ends on character
/// boundaries of it.
pub proof fn lemma_occurrence_on_boundaries(hay: Seq<u8>, pat: Seq<u8>, i: int)
    requires
        valid_utf8(hay),
        valid_utf8(pat),
        pat.len() > 0,
        occurs_at(hay, pat, i),
    ensures
        is_char_boundary(hay, i),
        is_char_boundary(hay, i + pat.len()),
{
    is_char_boundary_start_end_of_seq(pat);
    is_char_boundary_iff_not_is_continuation_byte(pat, 0);
    is_char_boundary_iff_not_is_continuation_byte(hay, i);
    assert(hay[i] == hay.subrange(i, i + pat.len())[0]);
    valid_utf8_split(hay, i);
    let tail = hay.subrange(i, hay.len() as int);
    assert(tail.subrange(0, pat.len() as int) =~= pat);
    lemma_valid_prefix_ends_on_boundary(tail, pat.len() as int);
    lemma_boundary_in_suffix(hay, i, pat.len() as int);
}

/// The first occurrence of a text in another one starts and ends on
/// character boundaries of it.
pub proof fn lemma_first_occurrence_on_boundaries(hay: Seq<u8>, pat: Seq<u8>, i: int)
    requires
        valid_utf8(hay),
        valid_utf8(pat),
        is_first_occurrence(hay, pat, i),
    ensures
        is_char_boundary(hay, i),
        is_char_boundary(hay, i + pat.len()),
{
    if pat.len() > 0 {
        lemma_occurrence_on_boundaries(hay, pat, i);
    } else {
        assert(hay.subrange(0, 0) =~= pat);
        assert(occurs_at(hay, pat, 0));
    }
}

/// The length of a text in bytes.
pub fn byte_len(s: &str) -> (n: usize)
    ensures
        n == s.spec_bytes().len(),
{
    s.as_bytes().len()
}

/// The text from byte offset `from` to the end.
pub fn suffix<'a>(s: &'a str, from: usize) -> (rest: &'a str)
    requires
        from <= s.spec_bytes().len(),
        is_char_boundary(s.spec_bytes(), from as int),
    ensures
        rest.spec_bytes() == s.spec_bytes().subrange(from as int, s.spec_bytes().len() as int),
        rest@ == decode_utf8(s.spec_bytes().subrange(from as int, s.spec_bytes().len() as int)),
{
    let parts = s.split_at(from);
    proof {
        encode_utf8_decode_utf8(parts.1@);
    }
    parts.1
}

/// The text between the byte offsets `from` and `to`.
pub fn between<'a>(s: &'a str, from: usize, to: usize) -> (part: &'a str)
    requires
        from <= to <= s.spec_bytes().len(),
        is_char_boundary(s.spec_bytes(), from as int),
        is_char_boundary(s.spec_bytes(), to as int),
    ensures
        part.spec_bytes() == s.spec_bytes().subrange(from as int, to as int),
        part@ == decode_utf8(s.spec_bytes().subrange(from as int, to as int)),
{
    proof {
        encode_utf8_valid_utf8(s@);
        lemma_boundary_in_prefix(s.spec_bytes(), from as int, to as int);
    }
    let head = s.split_at(to).0;
    let part = head.split_at(from).1;
    proof {
        encode_utf8_decode_utf8(part@);
        assert(part.spec_bytes() =~= s.spec_bytes().subrange(from as int, to as int));
    }
    part
}

/// Appends `piece` to `text`; stated over the bytes of both.
pub fn push_text(text: &mut String, piece: &str)
    ensures
        final(text)@ == old(text)@ + piece@,
        encode_utf8(final(text)@) == encode_utf8(old(text)@) + encode_utf8(piece@),
{
    proof {
        lemma_encode_concat(text@, piece@);
    }
    text.append(piece);
}

/// Where a pattern stands first in a text: the byte offset of its first
/// occurrence, or `None` where it stands nowhere. An empty pattern stands at
/// the start.
pub fn find_str(hay: &str, pat: &str) -> (found: Option<usize>)
    ensures
        match found {
            Some(i) => is_first_occurrence(hay.spec_bytes(), pat.spec_bytes(), i as int),
            None => forall|j: int| !occurs_at(hay.spec_bytes(), pat.spec_bytes(), j),
        },
{
    let text = hay.as_bytes();
    let wanted = pat.as_bytes();
    let n = text.len();
    let m = wanted.len();
    if m > n {
        return None;
    }
    let last: usize = n - m;
    let mut i: usize = 0;
    while i <= last
        invariant
            text@ == hay.spec_bytes(),
            wanted@ == pat.spec_bytes(),
            n == text@.len(),
            m == wanted@.len(),
            last == n - m,
            i <= last + 1,
            forall|j: int| 0 <= j < i ==> !occurs_at(text@, wanted@, j),
        decreases last + 1 - i,
    {
        let mut k: usize = 0;
        while k < m && text[i + k] == wanted[k]
            invariant
                n == text@.len(),
                m == wanted@.len(),
                i + m <= n,
                k <= m,
                forall|t: int| 0 <= t < k ==> text@[i + t] == wanted@[t],
            decreases m - k,
        {
            k += 1;
        }
        if k == m {
            assert(text@.subrange(i as int, i + m) =~= wanted@);
            return Some(i);
        }
        assert(!occurs_at(text@, wanted@, i as int)) by {
            if occurs_at(text@, wanted@, i as int) {
                assert(text@.subrange(i as int, i + m)[k as int] == text@[i + k]);
            }
        }
        i += 1;
    }
    None
}

/// The digit `d` as a character.
pub open spec fn digit(d: nat) -> char {
    if d == 0 {
        '0'
    } else if d == 1 {
        '1'
    } else if d == 2 {
        '2'
    } else if d == 3 {
        '3'
    } else if d == 4 {
        '4'
    } else if d == 5 {
        '5'
    } else if d == 6 {
        '6'
    } else if d == 7 {
        '7'
    } else if d == 8 {
        '8'
    } else {
        '9'
    }
}

/// A number in decimal digits, without leading zeros.
pub open spec fn decimal(n: nat) -> Seq<char>
    decreases n,
{
    if n < 10 {
        seq![digit(n)]
    } else {
        decimal(n / 10).push(digit(n % 10))
    }
}

/// The digit `d` as a text of one character.
fn digit_text(d: u128) -> (text: &'static str)
    requires
        d < 10,
    ensures
        text@ == seq![digit(d as nat)],
{
    proof {
        reveal_strlit("0");
        reveal_strlit("1");
        reveal_strlit("2");
        reveal_strlit("3");
        reveal_strlit("4");
        reveal_strlit("5");
        reveal_strlit("6");
        reveal_strlit("7");
        reveal_strlit("8");
        reveal_strlit("9");
    }
    let text = if d == 0 {
        "0"
    } else if d == 1 {
        "1"
    } else if d == 2 {
        "2"
    } else if d == 3 {
        "3"
    } else if d == 4 {
        "4"
    } else if d == 5 {
        "5"
    } else if d == 6 {
        "6"
    } else if d == 7 {
        "7"
    } else if d == 8 {
        "8"
    } else {
        "9"
    };
    assert(text@ =~= seq![digit(d as nat)]);
    text
}

/// Writes a number in decimal digits, without leading zeros.
pub fn decimal_string(n: u128) -> (res: String)
    ensures
        res@ == decimal(n as nat),
    decreases n,
{
    if n < 10 {
        digit_text(n).to_owned()
    } else {
        let mut res = decimal_string(n / 10);
        res.append(digit_text(n % 10));
        assert(res@ =~= decimal((n / 10) as nat).push(digit((n % 10) as nat)));
        res
    }
}

} // verus!
