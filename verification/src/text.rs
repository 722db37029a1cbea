//! Source text.

use vstd::prelude::*;
use vstd::string::*;
use vstd::utf8::*;

verus! {

/// `s` without its first `trim_from_start` and its last `trim_from_end` bytes.
pub fn trim_str(s: &str, trim_from_start: usize, trim_from_end: usize) -> (r: &str)
    requires
        trim_from_start + trim_from_end <= s.spec_bytes().len(),
        is_char_boundary(s.spec_bytes(), trim_from_start as int),
        is_char_boundary(s.spec_bytes(), s.spec_bytes().len() - trim_from_end),
    ensures
        r.spec_bytes() == s.spec_bytes().subrange(
            trim_from_start as int,
            s.spec_bytes().len() - trim_from_end,
        ),
{
    let start = trim_from_start;
    let end = s.as_bytes().len() - trim_from_end;
    let (head, _) = s.split_at(end);
    proof {
        encode_utf8_valid_utf8(s@);
        encode_utf8_valid_utf8(head@);
        lemma_boundary_of_prefix(s.spec_bytes(), start as int, end as int);
    }
    let (_, middle) = head.split_at(start);
    middle
}

/// A boundary of some text is a boundary of every prefix that is long enough to hold it.
proof fn lemma_boundary_of_prefix(bytes: Seq<u8>, index: int, end: int)
    requires
        valid_utf8(bytes),
        0 <= index <= end <= bytes.len(),
        valid_utf8(bytes.subrange(0, end)),
        is_char_boundary(bytes, index),
    ensures
        is_char_boundary(bytes.subrange(0, end), index),
{
    let prefix = bytes.subrange(0, end);
    if index < end {
        is_char_boundary_iff_not_is_continuation_byte(bytes, index);
        is_char_boundary_iff_not_is_continuation_byte(prefix, index);
        assert(prefix[index] == bytes[index]);
    } else {
        is_char_boundary_start_end_of_seq(prefix);
    }
}

/// The encoding of joined text is the joined encodings.
pub proof fn lemma_encode_joined(a: Seq<char>, b: Seq<char>)
    ensures
        encode_utf8(a + b) == encode_utf8(a) + encode_utf8(b),
    decreases a.len(),
{
    if a.len() == 0 {
        assert(a + b =~= b);
        assert(encode_utf8(a) + encode_utf8(b) =~= encode_utf8(b));
    } else {
        assert((a + b).drop_first() =~= a.drop_first() + b);
        lemma_encode_joined(a.drop_first(), b);
        assert(encode_utf8(a + b) =~= encode_utf8(a) + encode_utf8(b));
    }
}

/// Text that is told apart by its encoding.
pub proof fn lemma_encode_injective(a: Seq<char>, b: Seq<char>)
    requires
        encode_utf8(a) == encode_utf8(b),
    ensures
        a == b,
{
    encode_utf8_decode_utf8(a);
    encode_utf8_decode_utf8(b);
}

/// A string literal: text between double quotes.
pub open spec fn is_quoted(text: Seq<char>) -> bool {
    &&& text.len() >= 2
    &&& text.first() == '"'
    &&& text.last() == '"'
}

/// The text between the quotes of a string literal.
pub open spec fn unquoted(text: Seq<char>) -> Seq<char> {
    text.subrange(1, text.len() - 1)
}

proof fn lemma_encode_quote(c: char)
    requires
        c == '"',
    ensures
        encode_utf8(seq![c]) == seq![34u8],
{
    is_ascii_chars_encode_utf8(seq![c]);
    assert(encode_utf8(seq![c]) =~= seq![34u8]) by {
        assert(seq![c][0] as u8 == encode_utf8(seq![c])[0]);
        assert('"' as u8 == 34u8);
    }
}

/// The text of a string literal.
pub fn unquote(literal: &str) -> (r: &str)
    requires
        is_quoted(literal@),
    ensures
        r@ == unquoted(literal@),
{
    proof {
        let text = literal@;
        let inner = unquoted(text);
        let bytes = literal.spec_bytes();
        let quote = seq!['"'];
        assert(text =~= quote + inner + quote);
        lemma_encode_joined(quote + inner, quote);
        lemma_encode_joined(quote, inner);
        lemma_encode_quote('"');
        assert(bytes =~= seq![34u8] + encode_utf8(inner) + seq![34u8]);
        encode_utf8_valid_utf8(text);
        let last = bytes.len() - 1;
        assert(bytes[last] == 34u8);
        assert(!is_continuation_byte(34u8));
        is_char_boundary_iff_not_is_continuation_byte(bytes, last);
        encode_utf8_valid_utf8(inner + quote);
        lemma_encode_joined(inner, quote);
        assert(bytes =~= seq![34u8] + encode_utf8(inner + quote));
        lemma_boundary_after_quote(inner);
        assert(bytes.subrange(1, last) =~= encode_utf8(inner));
    }
    let r = trim_str(literal, 1, 1);
    proof {
        lemma_encode_injective(r@, unquoted(literal@));
    }
    r
}

/// The end of the opening quote of a string literal is a boundary.
proof fn lemma_boundary_after_quote(inner: Seq<char>)
    ensures
        is_char_boundary(encode_utf8(seq!['"'] + inner + seq!['"']), 1),
{
    let text = seq!['"'] + inner + seq!['"'];
    let rest = inner + seq!['"'];
    assert(text.drop_first() =~= rest);
    encode_utf8_valid_utf8(text);
    lemma_encode_quote('"');
    encode_utf8_first_scalar(text);
    reveal_with_fuel(is_char_boundary, 2);
    reveal_with_fuel(encode_utf8, 2);
    assert(encode_utf8(text) =~= encode_scalar('"' as u32) + encode_utf8(rest));
}

/// Text without its first byte, where that byte is a character.
fn after_first_byte(text: &str) -> (r: &str)
    requires
        text.spec_bytes().len() > 0,
        text.spec_bytes()[0] < 128,
    ensures
        r.spec_bytes() == text.spec_bytes().subrange(1, text.spec_bytes().len() as int),
{
    proof {
        let bytes = text.spec_bytes();
        encode_utf8_valid_utf8(text@);
        reveal_with_fuel(valid_utf8, 2);
        reveal_with_fuel(is_char_boundary, 2);
        utf8_byte_ranges_bitwise(bytes[0]);
        assert(is_leading_byte_width_1(bytes[0]));
        assert(length_of_first_scalar(bytes) == 1);
    }
    let (_, rest) = text.split_at(1);
    rest
}

/// What follows a backslash and a line break at the given byte, if they stand there.
pub fn after_skipped_line(text: &str, at: usize) -> (r: Option<&str>)
    requires
        at <= text.spec_bytes().len() < u32::MAX,
    ensures
        match r {
            Some(rest) => {
                &&& at + 2 <= text.spec_bytes().len()
                &&& text.spec_bytes()[at as int] == 92
                &&& text.spec_bytes()[at + 1] == 10
                &&& rest.spec_bytes() == text.spec_bytes().subrange(
                    at + 2,
                    text.spec_bytes().len() as int,
                )
            },
            None => !(at + 2 <= text.spec_bytes().len() && text.spec_bytes()[at as int] == 92
                && text.spec_bytes()[at + 1] == 10),
        },
{
    let bytes = text.as_bytes();
    if bytes.len() - at < 2 || bytes[at] != 92 || bytes[at + 1] != 10 {
        return None;
    }
    proof {
        encode_utf8_valid_utf8(text@);
        assert(!is_continuation_byte(92u8));
        is_char_boundary_iff_not_is_continuation_byte(text.spec_bytes(), at as int);
    }
    let (_, tail) = text.split_at(at);
    Some(after_first_byte(after_first_byte(tail)))
}

/// What follows a backslash and a line break is text, and what they are encoded as.
pub proof fn lemma_skipped_line(text: Seq<char>, at: int)
    requires
        0 <= at,
        at + 2 <= encode_utf8(text).len(),
        encode_utf8(text)[at] == 92,
        encode_utf8(text)[at + 1] == 10,
    ensures
        ({
            let rest = encode_utf8(text).subrange(at + 2, encode_utf8(text).len() as int);
            encode_utf8(decode_utf8(rest)) == rest
        }),
        encode_utf8(seq!['\\', '\n']) == encode_utf8(text).subrange(at, at + 2),
{
    let bytes = encode_utf8(text);
    let tail = bytes.subrange(at, bytes.len() as int);
    encode_utf8_valid_utf8(text);
    assert(!is_continuation_byte(92u8));
    is_char_boundary_iff_not_is_continuation_byte(bytes, at);
    valid_utf8_split(bytes, at);
    reveal_with_fuel(valid_utf8, 3);
    assert(length_of_first_scalar(tail) == 1);
    let middle = pop_first_scalar(tail);
    assert(length_of_first_scalar(middle) == 1);
    assert(pop_first_scalar(middle) =~= bytes.subrange(at + 2, bytes.len() as int));
    decode_utf8_encode_utf8(bytes.subrange(at + 2, bytes.len() as int));
    let chars = seq!['\\', '\n'];
    is_ascii_chars_encode_utf8(chars);
    assert(encode_utf8(chars) =~= bytes.subrange(at, at + 2)) by {
        assert(chars[0] as u8 == encode_utf8(chars)[0]);
        assert(chars[1] as u8 == encode_utf8(chars)[1]);
        assert('\\' as u8 == 92u8);
        assert('\n' as u8 == 10u8);
    }
}

/// The text of a string literal is what was put between its quotes, whatever that is.
pub proof fn law_unquoted(text: Seq<char>)
    ensures
        is_quoted(seq!['"'] + text + seq!['"']),
        unquoted(seq!['"'] + text + seq!['"']) == text,
{
    assert(unquoted(seq!['"'] + text + seq!['"']) =~= text);
}

} // verus!
