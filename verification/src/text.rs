//! Parts of a text by byte offsets, and comparison of texts.

use vstd::prelude::*;
use vstd::string::*;
use vstd::utf8::*;

verus! {

/// The characters that a run of ASCII bytes stands for, one for one.
pub open spec fn ascii_text(bytes: Seq<u8>) -> Seq<char> {
    Seq::new(bytes.len(), |i: int| bytes[i] as char)
}

/// True when every byte of the run is below 128.
pub open spec fn all_ascii(bytes: Seq<u8>) -> bool {
    forall|i: int| 0 <= i < bytes.len() ==> #[trigger] bytes[i] < 0x80
}

/// In valid UTF-8, the position just behind an ASCII byte starts a character
/// (or is the end of the text).
pub proof fn lemma_boundary_after_ascii(bytes: Seq<u8>, i: int)
    requires
        valid_utf8(bytes),
        0 <= i < bytes.len(),
        bytes[i] < 0x80,
    ensures
        is_char_boundary(bytes, i),
        is_char_boundary(bytes, i + 1),
    decreases bytes.len(),
{
    is_char_boundary_iff_not_is_continuation_byte(bytes, i);
    if i < length_of_first_scalar(bytes) {
        reveal_with_fuel(is_char_boundary, 3);
        reveal_with_fuel(valid_utf8, 2);
        is_char_boundary_start_end_of_seq(pop_first_scalar(bytes));
    } else {
        reveal_with_fuel(is_char_boundary, 2);
        lemma_boundary_after_ascii(pop_first_scalar(bytes), i - length_of_first_scalar(bytes));
    }
}

/// A run of ASCII bytes is the UTF-8 encoding of exactly one text: the one
/// that holds the same values as characters.
pub proof fn lemma_ascii_text_unique(chars: Seq<char>, bytes: Seq<u8>)
    requires
        encode_utf8(chars) == bytes,
        all_ascii(bytes),
    ensures
        chars == ascii_text(bytes),
{
    let t = ascii_text(bytes);
    assert(is_ascii_chars(t)) by {
        assert forall|i: int| 0 <= i < t.len() implies '\0' <= #[trigger] t[i] <= '\u{7f}' by {
            assert(bytes[i] < 0x80);
        }
    }
    is_ascii_chars_encode_utf8(t);
    assert(encode_utf8(t) =~= bytes) by {
        assert forall|i: int| 0 <= i < bytes.len() implies encode_utf8(t)[i] == bytes[i] by {
            assert(bytes[i] < 0x80);
            assert(t[i] as u8 == bytes[i]);
        }
    }
    encode_utf8_decode_utf8(t);
    encode_utf8_decode_utf8(chars);
}

/// The part of `input` between the byte offsets `from` and `to`, which must
/// enclose ASCII bytes only.
pub fn ascii_slice<'a>(input: &'a str, from: usize, to: usize) -> (part: &'a str)
    requires
        from <= to <= input.spec_bytes().len(),
        all_ascii(input.spec_bytes().subrange(from as int, to as int)),
    ensures
        part@ == ascii_text(input.spec_bytes().subrange(from as int, to as int)),
        part.spec_bytes() == input.spec_bytes().subrange(from as int, to as int),
{
    let ghost bytes = input.spec_bytes();
    proof {
        encode_utf8_valid_utf8(input@);
    }
    if from == to {
        proof {
            is_char_boundary_start_end_of_seq(bytes);
        }
        let (head, _) = input.split_at(0);
        proof {
            assert(head.spec_bytes() =~= bytes.subrange(from as int, to as int));
            lemma_ascii_text_unique(head@, head.spec_bytes());
        }
        head
    } else {
        proof {
            assert(bytes.subrange(from as int, to as int)[to - from - 1] < 0x80);
            assert(bytes.subrange(from as int, to as int)[0] < 0x80);
            lemma_boundary_after_ascii(bytes, to - 1);
        }
        let (head, _) = input.split_at(to);
        proof {
            encode_utf8_valid_utf8(head@);
            lemma_boundary_after_ascii(head.spec_bytes(), from as int);
        }
        let (_, part) = head.split_at(from);
        proof {
            assert(part.spec_bytes() =~= bytes.subrange(from as int, to as int));
            lemma_ascii_text_unique(part@, part.spec_bytes());
        }
        part
    }
}

/// Whether two texts hold the same characters.
pub fn same_text(a: &str, b: &str) -> (same: bool)
    ensures
        same == (a@ == b@),
{
    let x = a.as_bytes();
    let y = b.as_bytes();
    proof {
        encode_utf8_decode_utf8(a@);
        encode_utf8_decode_utf8(b@);
    }
    if x.len() != y.len() {
        return false;
    }
    let mut i: usize = 0;
    while i < x.len()
        invariant
            i <= x.len(),
            x.len() == y.len(),
            x@ == a.spec_bytes(),
            y@ == b.spec_bytes(),
            forall|k: int| 0 <= k < i ==> x@[k] == y@[k],
        decreases x.len() - i,
    {
        if x[i] != y[i] {
            return false;
        }
        i += 1;
    }
    assert(x@ =~= y@);
    true
}

} // verus!
