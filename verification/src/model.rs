//! The signature as a value: its name, generic parameters, arguments and
//! return type.

use vstd::prelude::*;
use vstd::std_specs::cmp::PartialEqSpecImpl;
use crate::text::same_text;

verus! {

/// One parameter of a signature: the name it binds and the type written
/// for it. Both are parts of the text that was parsed.
#[derive(Clone, Copy, Debug, PartialEq, Eq)]
pub struct Argument<'a> {
    pub name: &'a str,
    pub type_def: &'a str,
}

/// A parsed signature: the name of the macro to generate, the names of
/// the generic parameters, the arguments in the order of the text, and the
/// return type where one is written.
///
/// `generics` stands for a set: two values are equal when their generic
/// parameters are the same names, in whatever order and however often.
#[derive(Debug)]
pub struct ReturnType<'a> {
    pub macro_name: &'a str,
    pub generics: Vec<&'a str>,
    pub args: Vec<Argument<'a>>,
    pub return_param: Option<&'a str>,
}

/// The mathematical value of an [`Argument`].
pub struct ArgumentModel {
    pub name: Seq<char>,
    pub type_def: Seq<char>,
}

/// The mathematical value of a [`ReturnType`].
pub struct SignatureModel {
    pub macro_name: Seq<char>,
    pub generics: Set<Seq<char>>,
    pub args: Seq<ArgumentModel>,
    pub return_param: Option<Seq<char>>,
}

/// A character that can start an identifier: an ASCII letter or an underscore.
pub open spec fn is_name_start(c: char) -> bool {
    ('a' <= c <= 'z') || ('A' <= c <= 'Z') || c == '_'
}

/// A character that an identifier can hold: an ASCII letter, a digit or an underscore.
pub open spec fn is_name_part(c: char) -> bool {
    is_name_start(c) || ('0' <= c <= '9')
}

/// True when `text` is an identifier: not empty, started by a letter or
/// an underscore, and made of letters, digits and underscores.
pub open spec fn is_identifier(text: Seq<char>) -> bool {
    &&& text.len() > 0
    &&& is_name_start(text[0])
    &&& forall|k: int| 0 <= k < text.len() ==> is_name_part(#[trigger] text[k])
}

impl SignatureModel {
    /// True when every name and every type of the signature is an identifier.
    pub open spec fn wf(self) -> bool {
        &&& is_identifier(self.macro_name)
        &&& self.generics.finite()
        &&& forall|name: Seq<char>| self.generics.contains(name) ==> is_identifier(name)
        &&& forall|k: int|
            0 <= k < self.args.len() ==> is_identifier(#[trigger] self.args[k].name)
                && is_identifier(self.args[k].type_def)
        &&& self.return_param matches Some(type_def) ==> is_identifier(type_def)
    }
}

impl<'a> View for Argument<'a> {
    type V = ArgumentModel;

    open spec fn view(&self) -> ArgumentModel {
        ArgumentModel { name: self.name@, type_def: self.type_def@ }
    }
}

/// The texts of a row of names.
pub open spec fn texts(names: Seq<&str>) -> Seq<Seq<char>> {
    Seq::new(names.len(), |i: int| names[i]@)
}

/// The values of a row of arguments.
pub open spec fn argument_models(args: Seq<Argument>) -> Seq<ArgumentModel> {
    Seq::new(args.len(), |i: int| args[i]@)
}

/// The text of a name that may be missing.
pub open spec fn optional_text(name: Option<&str>) -> Option<Seq<char>> {
    match name {
        Some(t) => Some(t@),
        None => None,
    }
}

impl<'a> View for ReturnType<'a> {
    type V = SignatureModel;

    open spec fn view(&self) -> SignatureModel {
        SignatureModel {
            macro_name: self.macro_name@,
            generics: texts(self.generics@).to_set(),
            args: argument_models(self.args@),
            return_param: optional_text(self.return_param),
        }
    }
}

impl<'a> ReturnType<'a> {
    /// True when the signature is one that the grammar can give: its names
    /// and types are identifiers, and no generic parameter is listed twice.
    pub open spec fn wf(&self) -> bool {
        &&& self@.wf()
        &&& forall|i: int, j: int|
            0 <= i < j < self.generics@.len() ==> self.generics@[i]@ != self.generics@[j]@
    }
}

/// Whether `name` is one of `names`.
pub fn holds_text(names: &Vec<&str>, name: &str) -> (found: bool)
    ensures
        found == texts(names@).to_set().contains(name@),
{
    let mut i: usize = 0;
    while i < names.len()
        invariant
            i <= names@.len(),
            forall|k: int| 0 <= k < i ==> names@[k]@ != name@,
        decreases names@.len() - i,
    {
        if same_text(names[i], name) {
            assert(texts(names@)[i as int] == name@);
            return true;
        }
        i += 1;
    }
    false
}

/// Whether every name of `names` is one of `others`.
pub fn all_held(names: &Vec<&str>, others: &Vec<&str>) -> (all: bool)
    ensures
        all == texts(names@).to_set().subset_of(texts(others@).to_set()),
{
    let mut i: usize = 0;
    while i < names.len()
        invariant
            i <= names@.len(),
            forall|k: int| 0 <= k < i ==> texts(others@).to_set().contains(#[trigger] names@[k]@),
        decreases names@.len() - i,
    {
        if !holds_text(others, names[i]) {
            assert(texts(names@)[i as int] == names@[i as int]@);
            assert(texts(names@).to_set().contains(names@[i as int]@));
            return false;
        }
        i += 1;
    }
    assert forall|t: Seq<char>| texts(names@).to_set().contains(t) implies texts(
        others@,
    ).to_set().contains(t) by {
        let k = choose|k: int| 0 <= k < texts(names@).len() && texts(names@)[k] == t;
        assert(names@[k]@ == t);
    }
    true
}

/// Whether two rows of arguments hold the same names and types in the same order.
pub fn same_arguments(left: &Vec<Argument>, right: &Vec<Argument>) -> (same: bool)
    ensures
        same == (argument_models(left@) == argument_models(right@)),
{
    if left.len() != right.len() {
        assert(argument_models(left@).len() != argument_models(right@).len());
        return false;
    }
    let mut i: usize = 0;
    while i < left.len()
        invariant
            i <= left@.len(),
            left@.len() == right@.len(),
            forall|k: int| 0 <= k < i ==> left@[k]@ == right@[k]@,
        decreases left@.len() - i,
    {
        if !same_text(left[i].name, right[i].name) || !same_text(
            left[i].type_def,
            right[i].type_def,
        ) {
            assert(argument_models(left@)[i as int] != argument_models(right@)[i as int]);
            return false;
        }
        i += 1;
    }
    assert(argument_models(left@) =~= argument_models(right@));
    true
}

/// Whether two names that may be missing are both missing or the same text.
pub fn same_optional_text(left: Option<&str>, right: Option<&str>) -> (same: bool)
    ensures
        same == (optional_text(left) == optional_text(right)),
{
    match (left, right) {
        (Some(a), Some(b)) => same_text(a, b),
        (None, None) => true,
        _ => false,
    }
}

impl<'a> PartialEq for ReturnType<'a> {
    /// Two signatures are equal when they have the same value.
    fn eq(&self, other: &Self) -> (same: bool) {
        let same = same_text(self.macro_name, other.macro_name) && same_arguments(
            &self.args,
            &other.args,
        ) && same_optional_text(self.return_param, other.return_param) && all_held(
            &self.generics,
            &other.generics,
        ) && all_held(&other.generics, &self.generics);
        proof {
            if same {
                assert(self@.generics =~= other@.generics);
            }
        }
        same
    }
}

impl<'a> PartialEqSpecImpl for ReturnType<'a> {
    open spec fn obeys_eq_spec() -> bool {
        true
    }

    open spec fn eq_spec(&self, other: &Self) -> bool {
        self@ == other@
    }
}

impl<'a> Eq for ReturnType<'a> {

}

} // verus!
