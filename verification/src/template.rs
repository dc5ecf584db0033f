//! From a function written as a template to the definition of a macro.

use vstd::prelude::*;
use vstd::string::*;
use vstd::utf8::{
    decode_utf8, encode_utf8_decode_utf8, encode_utf8_valid_utf8,
    is_char_boundary_iff_not_is_continuation_byte,
};
use crate::error::{Failure, GrammarError};
use crate::extract::{parse_signature, signature_of};
use crate::model::SignatureModel;
use crate::render::{binding_text, macro_signature_text};

verus! {

/// `{`
pub const OPEN_BRACE: u8 = 0x7b;

/// Why a template cannot be expanded.
#[derive(Clone, Copy, Debug, PartialEq, Eq, Structural)]
pub enum TemplateError {
    /// The text has no `{`, so no body.
    MissingBody,
    /// What stands before the body is no signature.
    Grammar(GrammarError),
}

/// The mathematical value of a [`TemplateError`].
pub enum TemplateFailure {
    MissingBody,
    Grammar(Failure),
}

impl View for TemplateError {
    type V = TemplateFailure;

    open spec fn view(&self) -> TemplateFailure {
        match self {
            TemplateError::MissingBody => TemplateFailure::MissingBody,
            TemplateError::Grammar(e) => TemplateFailure::Grammar(e@),
        }
    }
}

/// The offset of the first `{` at or after `i`, or the length of `s` where
/// none follows.
pub open spec fn brace_from(s: Seq<u8>, i: int) -> int
    decreases s.len() - i,
{
    if 0 <= i < s.len() && s[i] != OPEN_BRACE {
        brace_from(s, i + 1)
    } else {
        i
    }
}

/// The macro definition for the signature `m` and the text `body`, which
/// holds the braces of the function's body.
pub open spec fn macro_text(m: SignatureModel, body: Seq<char>) -> Seq<char> {
    "macro_rules! "@ + m.macro_name + " {("@ + macro_signature_text(m.args) + ") =>{ { "@
        + binding_text(m.args) + " "@ + body + " } } }"@
}

/// The macro definition that the template `s` expands to: the text before
/// its first `{` is the signature, the rest is the body.
pub open spec fn template_of(s: Seq<u8>) -> Result<Seq<char>, TemplateFailure> {
    let brace = brace_from(s, 0);
    if brace >= s.len() {
        Err(TemplateFailure::MissingBody)
    } else {
        match signature_of(s.subrange(0, brace)) {
            Err(f) => Err(TemplateFailure::Grammar(f)),
            Ok(m) => Ok(macro_text(m, decode_utf8(s.subrange(brace, s.len() as int)))),
        }
    }
}

/// The offset of the first `{` in `bytes`, or their number where there is none.
pub fn find_brace(bytes: &[u8]) -> (at: usize)
    ensures
        at == brace_from(bytes@, 0),
        at <= bytes@.len(),
        at < bytes@.len() ==> bytes@[at as int] == OPEN_BRACE,
{
    let mut at: usize = 0;
    while at < bytes.len() && bytes[at] != OPEN_BRACE
        invariant
            at <= bytes@.len(),
            brace_from(bytes@, 0) == brace_from(bytes@, at as int),
        decreases bytes@.len() - at,
    {
        at += 1;
    }
    at
}

/// Expands a template, a function written as `fn name<..>(..) -> .. { .. }`,
/// to the definition of a macro of that name, which binds its arguments
/// and then runs the body.
pub fn template_impl(input: &str) -> (r: Result<String, TemplateError>)
    ensures
        match r {
            Ok(out) => template_of(input.spec_bytes()) == Ok::<Seq<char>, TemplateFailure>(out@),
            Err(e) => template_of(input.spec_bytes()) == Err::<Seq<char>, TemplateFailure>(e@),
        },
{
    let bytes = input.as_bytes();
    let body_start = find_brace(bytes);
    if body_start >= bytes.len() {
        return Err(TemplateError::MissingBody);
    }
    proof {
        encode_utf8_valid_utf8(input@);
        is_char_boundary_iff_not_is_continuation_byte(input.spec_bytes(), body_start as int);
    }
    let (signature, body) = input.split_at(body_start);
    proof {
        encode_utf8_decode_utf8(body@);
    }
    match parse_signature(signature) {
        Err(e) => Err(TemplateError::Grammar(e)),
        Ok(result) => {
            let mut out = String::new();
            out.append("macro_rules! ");
            out.append(result.macro_name());
            out.append(" {(");
            out.append(result.to_macro_signature().as_str());
            out.append(") =>{ { ");
            out.append(result.to_binding().as_str());
            out.append(" ");
            out.append(body);
            out.append(" } } }");
            assert(out@ =~= macro_text(result@, body@));
            Ok(out)
        },
    }
}

} // verus!
