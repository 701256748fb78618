//! Byte-exact slicing of UTF-8 text, and the whitespace that surrounds a
//! link destination.

use vstd::prelude::*;
use vstd::string::*;
use vstd::utf8::*;

verus! {

/// The UTF-8 encoding of a concatenation is the concatenation of the encodings.
pub proof fn lemma_encode_concat(a: Seq<char>, b: Seq<char>)
    ensures
        encode_utf8(a + b) == encode_utf8(a) + encode_utf8(b),
    decreases a.len(),
{
    if a.len() == 0 {
        assert(a + b =~= b);
        assert(encode_utf8(a) + encode_utf8(b) =~= encode_utf8(b));
    } else {
        lemma_encode_concat(a.drop_first(), b);
        assert((a + b).drop_first() =~= a.drop_first() + b);
        assert(encode_utf8(a + b) =~= encode_scalar(a[0] as u32) + (encode_utf8(a.drop_first())
            + encode_utf8(b)));
        assert(encode_utf8(a) + encode_utf8(b) =~= encode_scalar(a[0] as u32) + (encode_utf8(
            a.drop_first(),
        ) + encode_utf8(b)));
    }
}

/// Two texts with the same UTF-8 encoding are the same text.
pub proof fn lemma_encode_injective(a: Seq<char>, b: Seq<char>)
    requires
        encode_utf8(a) == encode_utf8(b),
    ensures
        a == b,
{
    encode_utf8_decode_utf8(a);
    encode_utf8_decode_utf8(b);
}

/// A character boundary of a text is also one of every prefix that reaches it.
pub proof fn lemma_boundary_in_prefix(bytes: Seq<u8>, i: int, j: int)
    requires
        valid_utf8(bytes),
        0 <= i <= j <= bytes.len(),
        is_char_boundary(bytes, i),
        is_char_boundary(bytes, j),
    ensures
        valid_utf8(bytes.subrange(0, j)),
        is_char_boundary(bytes.subrange(0, j), i),
{
    let prefix = bytes.subrange(0, j);
    valid_utf8_split(bytes, j);
    if i == j {
        is_char_boundary_start_end_of_seq(prefix);
    } else {
        is_char_boundary_iff_not_is_continuation_byte(bytes, i);
        is_char_boundary_iff_not_is_continuation_byte(prefix, i);
    }
}

/// Whether `start..end` can be cut out of a text with the given encoding:
/// the range is in bounds and both of its ends fall between characters.
pub open spec fn sliceable(bytes: Seq<u8>, start: int, end: int) -> bool {
    &&& 0 <= start <= end <= bytes.len()
    &&& is_char_boundary(bytes, start)
    &&& is_char_boundary(bytes, end)
}

/// Decides at run time whether `start..end` can be cut out of `s`.
pub fn can_slice(s: &str, start: usize, end: usize) -> (ok: bool)
    ensures
        ok == sliceable(s.spec_bytes(), start as int, end as int),
{
    proof {
        encode_utf8_valid_utf8(s@);
    }
    start <= end && end <= s.as_bytes().len() && s.is_char_boundary(start) && s.is_char_boundary(
        end,
    )
}

/// The part of `s` that occupies the bytes `start..end`.
pub fn slice<'a>(s: &'a str, start: usize, end: usize) -> (r: &'a str)
    requires
        sliceable(s.spec_bytes(), start as int, end as int),
    ensures
        r.spec_bytes() == s.spec_bytes().subrange(start as int, end as int),
        r@ == decode_utf8(s.spec_bytes().subrange(start as int, end as int)),
{
    proof {
        encode_utf8_valid_utf8(s@);
        lemma_boundary_in_prefix(s.spec_bytes(), start as int, end as int);
    }
    let (head, _) = s.split_at(end);
    let (_, r) = head.split_at(start);
    proof {
        assert(head.spec_bytes().subrange(start as int, head.spec_bytes().len() as int)
            =~= s.spec_bytes().subrange(start as int, end as int));
        encode_utf8_decode_utf8(r@);
    }
    r
}

/// The characters with the Unicode property `White_Space`.
pub open spec fn is_whitespace(c: char) -> bool {
    let u = c as u32;
    ||| 0x09 <= u <= 0x0D
    ||| u == 0x20
    ||| u == 0x85
    ||| u == 0xA0
    ||| u == 0x1680
    ||| 0x2000 <= u <= 0x200A
    ||| u == 0x2028
    ||| u == 0x2029
    ||| u == 0x202F
    ||| u == 0x205F
    ||| u == 0x3000
}

/// How many whitespace characters `s` starts with.
pub open spec fn leading_whitespace(s: Seq<char>) -> nat
    decreases s.len(),
{
    if s.len() > 0 && is_whitespace(s.first()) {
        1 + leading_whitespace(s.drop_first())
    } else {
        0
    }
}

/// How many whitespace characters `s` ends with.
pub open spec fn trailing_whitespace(s: Seq<char>) -> nat
    decreases s.len(),
{
    if s.len() > 0 && is_whitespace(s.last()) {
        1 + trailing_whitespace(s.drop_last())
    } else {
        0
    }
}

/// `s` without the whitespace it starts and ends with.
pub open spec fn trimmed(s: Seq<char>) -> Seq<char> {
    let rest = s.skip(leading_whitespace(s) as int);
    rest.take(rest.len() - trailing_whitespace(rest))
}

/// `str::trim` of the standard library: the result is the argument without
/// its leading and trailing run of `White_Space` characters.
#[verifier::external_body]
pub(crate) fn trim(s: &str) -> (r: &str)
    ensures
        r@ == trimmed(s@),
{
    s.trim()
}

} // verus!
