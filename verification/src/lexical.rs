//! Bytes and tokens: which bytes are whitespace, which make up an
//! identifier, and how far a run of either extends.

use vstd::prelude::*;

verus! {

/// `(`
pub const OPEN_PAREN: u8 = 0x28;

/// `)`
pub const CLOSE_PAREN: u8 = 0x29;

/// `,`
pub const COMMA: u8 = 0x2c;

/// `:`
pub const COLON: u8 = 0x3a;

/// `<`
pub const OPEN_ANGLE: u8 = 0x3c;

/// `>`
pub const CLOSE_ANGLE: u8 = 0x3e;

/// `-`
pub const HYPHEN: u8 = 0x2d;

/// `f`
pub const LOWER_F: u8 = 0x66;

/// `n`
pub const LOWER_N: u8 = 0x6e;

/// Blank, tab, line feed and carriage return separate tokens and mean nothing else.
pub open spec fn is_space(b: u8) -> bool {
    b == 0x20 || b == 0x09 || b == 0x0a || b == 0x0d
}

/// An identifier starts with an ASCII letter (`a` to `z`, `A` to `Z`) or an
/// underscore.
pub open spec fn is_ident_start(b: u8) -> bool {
    (0x61 <= b <= 0x7a) || (0x41 <= b <= 0x5a) || b == 0x5f
}

/// After its start an identifier goes on with ASCII letters, digits (`0` to
/// `9`) and underscores.
pub open spec fn is_ident_part(b: u8) -> bool {
    is_ident_start(b) || (0x30 <= b <= 0x39)
}

/// True when `s` holds the byte `b` at offset `i`.
pub open spec fn has_byte(s: Seq<u8>, i: int, b: u8) -> bool {
    0 <= i < s.len() && s[i] == b
}

/// The first offset at or after `i` that holds no whitespace.
pub open spec fn skip_spaces(s: Seq<u8>, i: int) -> int
    decreases s.len() - i,
{
    if 0 <= i < s.len() && is_space(s[i]) {
        skip_spaces(s, i + 1)
    } else {
        i
    }
}

/// The first offset at or after `i` that holds no identifier byte.
pub open spec fn ident_end(s: Seq<u8>, i: int) -> int
    decreases s.len() - i,
{
    if 0 <= i < s.len() && is_ident_part(s[i]) {
        ident_end(s, i + 1)
    } else {
        i
    }
}

/// `skip_spaces` passes over whitespace only and stops inside the text.
pub proof fn lemma_skip_spaces(s: Seq<u8>, i: int)
    requires
        0 <= i <= s.len(),
    ensures
        i <= skip_spaces(s, i) <= s.len(),
        forall|k: int| i <= k < skip_spaces(s, i) ==> is_space(#[trigger] s[k]),
        skip_spaces(s, i) < s.len() ==> !is_space(s[skip_spaces(s, i)]),
        skip_spaces(s, skip_spaces(s, i)) == skip_spaces(s, i),
    decreases s.len() - i,
{
    if i < s.len() && is_space(s[i]) {
        lemma_skip_spaces(s, i + 1);
    }
}

/// `ident_end` passes over identifier bytes only and stops inside the text.
pub proof fn lemma_ident_end(s: Seq<u8>, i: int)
    requires
        0 <= i <= s.len(),
    ensures
        i <= ident_end(s, i) <= s.len(),
        forall|k: int| i <= k < ident_end(s, i) ==> is_ident_part(#[trigger] s[k]),
        ident_end(s, i) < s.len() ==> !is_ident_part(s[ident_end(s, i)]),
    decreases s.len() - i,
{
    if i < s.len() && is_ident_part(s[i]) {
        lemma_ident_end(s, i + 1);
    }
}

pub fn space_byte(b: u8) -> (yes: bool)
    ensures
        yes == is_space(b),
{
    b == 0x20 || b == 0x09 || b == 0x0a || b == 0x0d
}

pub fn ident_start_byte(b: u8) -> (yes: bool)
    ensures
        yes == is_ident_start(b),
{
    (0x61 <= b && b <= 0x7a) || (0x41 <= b && b <= 0x5a) || b == 0x5f
}

pub fn ident_part_byte(b: u8) -> (yes: bool)
    ensures
        yes == is_ident_part(b),
{
    ident_start_byte(b) || (0x30 <= b && b <= 0x39)
}

/// Whether `bytes` holds `b` at offset `i`.
pub fn byte_at(bytes: &[u8], i: usize, b: u8) -> (yes: bool)
    ensures
        yes == has_byte(bytes@, i as int, b),
        yes ==> i < usize::MAX,
{
    i < bytes.len() && bytes[i] == b
}

/// Moves from `i` to the next offset that holds no whitespace.
pub fn skip_whitespace(bytes: &[u8], i: usize) -> (j: usize)
    requires
        i <= bytes@.len(),
    ensures
        j == skip_spaces(bytes@, i as int),
        i <= j <= bytes@.len(),
{
    let mut j: usize = i;
    while j < bytes.len() && space_byte(bytes[j])
        invariant
            i <= j <= bytes@.len(),
            skip_spaces(bytes@, i as int) == skip_spaces(bytes@, j as int),
        decreases bytes@.len() - j,
    {
        j += 1;
    }
    j
}

/// Moves from `i` to the next offset that holds no identifier byte.
pub fn skip_identifier(bytes: &[u8], i: usize) -> (j: usize)
    requires
        i <= bytes@.len(),
    ensures
        j == ident_end(bytes@, i as int),
        i <= j <= bytes@.len(),
{
    let mut j: usize = i;
    while j < bytes.len() && ident_part_byte(bytes[j])
        invariant
            i <= j <= bytes@.len(),
            ident_end(bytes@, i as int) == ident_end(bytes@, j as int),
        decreases bytes@.len() - j,
    {
        j += 1;
    }
    j
}

} // verus!
