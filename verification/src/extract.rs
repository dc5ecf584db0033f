//! From the syntax tree of a signature to the signature as a value.

use vstd::prelude::*;
use vstd::string::*;
use crate::error::{Failure, GrammarError};
use crate::grammar::{
    argument_at, argument_items, arguments_at, generic_clause, generic_items, has_arrow,
    has_keyword, identifier_at, lemma_argument_extent, lemma_pat_extent, parse_text, pat_at,
    pat_items, return_param_at, signature_at, starts_pat, word_at,
};
use crate::lexical::{
    has_byte, ident_end, is_ident_part, is_ident_start, lemma_ident_end, lemma_skip_spaces,
    skip_spaces, COMMA, OPEN_ANGLE, OPEN_PAREN,
};
use crate::model::{
    argument_models, holds_text, is_identifier, is_name_part, texts, Argument, ArgumentModel,
    ReturnType, SignatureModel,
};
use crate::parser::TemplateFn;
use crate::text::{all_ascii, ascii_slice, ascii_text};
use crate::tree::{lemma_children_view, trees, Node, Rule, Tree};

verus! {

/// The text that the node `t` spans in `s`.
pub open spec fn span_text(s: Seq<u8>, t: Tree) -> Seq<char> {
    ascii_text(s.subrange(t.start, t.end))
}

/// The first identifier of a pattern: the pattern's own where it is a
/// plain name, else that of the first pattern inside the parentheses.
pub open spec fn leading_identifier(pat: Tree) -> Tree
    decreases pat,
{
    if pat.rule == Rule::Pat && pat.children.len() > 0 {
        leading_identifier(pat.children[0])
    } else {
        pat
    }
}

/// The argument that an `argument` node stands for: it is named by the
/// first identifier of its pattern, whatever else the pattern holds.
pub open spec fn argument_model(s: Seq<u8>, arg: Tree) -> ArgumentModel {
    ArgumentModel {
        name: span_text(s, leading_identifier(arg.children[0])),
        type_def: span_text(s, arg.children[1]),
    }
}

/// The signature that the tree of a `signature` stands for. Its children
/// are the name, the generic parameters, the arguments and, where the text
/// has one, the return type.
pub open spec fn signature_model(s: Seq<u8>, tree: Tree) -> SignatureModel {
    SignatureModel {
        macro_name: span_text(s, tree.children[0]),
        generics: tree.children[1].children.map_values(|name: Tree| span_text(s, name)).to_set(),
        args: tree.children[2].children.map_values(|arg: Tree| argument_model(s, arg)),
        return_param: if tree.children.len() > 3 {
            Some(span_text(s, tree.children[3]))
        } else {
            None
        },
    }
}

/// The signature that the text `s` states, or why it states none.
pub open spec fn signature_of(s: Seq<u8>) -> Result<SignatureModel, Failure> {
    match parse_text(Rule::Function, s) {
        Ok(tree) => Ok(signature_model(s, tree)),
        Err(f) => Err(f),
    }
}

/// True when `t` spans an identifier of `s`.
pub open spec fn is_word(s: Seq<u8>, t: Tree) -> bool {
    &&& 0 <= t.start < t.end <= s.len()
    &&& is_ident_start(s[t.start])
    &&& forall|k: int| t.start <= k < t.end ==> is_ident_part(#[trigger] s[k])
}

/// The text of a word is an identifier, and its bytes are ASCII.
pub proof fn lemma_word_text(s: Seq<u8>, t: Tree)
    requires
        is_word(s, t),
    ensures
        is_identifier(span_text(s, t)),
        all_ascii(s.subrange(t.start, t.end)),
{
    let bytes = s.subrange(t.start, t.end);
    assert forall|k: int| 0 <= k < bytes.len() implies #[trigger] bytes[k] < 0x80 by {
        assert(is_ident_part(s[t.start + k]));
    }
    let text = span_text(s, t);
    assert(is_ident_start(s[t.start]));
    assert forall|k: int| 0 <= k < text.len() implies is_name_part(
        #[trigger] text[k],
    ) by {
        assert(is_ident_part(s[t.start + k]));
    }
}

/// A name-like token that matched spans an identifier.
pub proof fn lemma_word_at(s: Seq<u8>, i: int, rule: Rule)
    requires
        word_at(s, i, rule) is Ok,
    ensures
        is_word(s, word_at(s, i, rule)->Ok_0.tree),
        word_at(s, i, rule)->Ok_0.tree.rule == rule,
        word_at(s, i, rule)->Ok_0.tree.children.len() == 0,
{
    lemma_ident_end(s, i + 1);
}

/// The row that `pat_items` gives starts with the patterns in `done` and
/// goes on with the pattern at `i`.
pub proof fn lemma_pat_items_first(s: Seq<u8>, i: int, done: Seq<Tree>)
    requires
        pat_items(s, i, done) is Ok,
    ensures
        pat_at(s, i) is Ok,
        pat_items(s, i, done)->Ok_0.0.len() > done.len(),
        pat_items(s, i, done)->Ok_0.0[done.len() as int] == pat_at(s, i)->Ok_0.tree,
        forall|k: int| 0 <= k < done.len() ==> pat_items(s, i, done)->Ok_0.0[k] == done[k],
    decreases s.len() - i,
{
    lemma_pat_extent(s, i);
    let item = pat_at(s, i)->Ok_0;
    lemma_skip_spaces(s, item.next);
    let j = skip_spaces(s, item.next);
    if has_byte(s, j, COMMA) && i < j {
        lemma_skip_spaces(s, j + 1);
        lemma_pat_items_first(s, skip_spaces(s, j + 1), done.push(item.tree));
        assert(done.push(item.tree)[done.len() as int] == item.tree);
        assert forall|k: int| 0 <= k < done.len() implies pat_items(s, i, done)->Ok_0.0[k]
            == done[k] by {
            assert(done.push(item.tree)[k] == done[k]);
        }
    }
}

/// The first identifier of a pattern that matched is an identifier of the text.
pub proof fn lemma_pat_leading(s: Seq<u8>, i: int)
    requires
        pat_at(s, i) is Ok,
    ensures
        is_word(s, leading_identifier(pat_at(s, i)->Ok_0.tree)),
    decreases s.len() - i,
{
    if has_byte(s, i, OPEN_PAREN) {
        lemma_skip_spaces(s, i + 1);
        let first = skip_spaces(s, i + 1);
        lemma_pat_items_first(s, first, Seq::empty());
        lemma_pat_leading(s, first);
    } else {
        lemma_word_at(s, i, Rule::Identifier);
        let name = identifier_at(s, i)->Ok_0.tree;
        assert(seq![name][0] == name);
        assert(leading_identifier(name) == name);
    }
}

/// True when `arg` has the shape of an argument of `s`: a pattern whose
/// first identifier is one of the text, and a type that is one too.
pub open spec fn is_argument(s: Seq<u8>, arg: Tree) -> bool {
    &&& arg.children.len() == 2
    &&& is_word(s, leading_identifier(arg.children[0]))
    &&& is_word(s, arg.children[1])
}

/// An argument that matched has the shape of one.
pub proof fn lemma_argument_at(s: Seq<u8>, i: int)
    requires
        argument_at(s, i) is Ok,
    ensures
        is_argument(s, argument_at(s, i)->Ok_0.tree),
{
    lemma_pat_leading(s, i);
    let pat = pat_at(s, i)->Ok_0;
    let colon = skip_spaces(s, pat.next);
    lemma_word_at(s, skip_spaces(s, colon + 1), Rule::TypeDef);
}

/// Every item of a row of arguments that matched has the shape of an
/// argument, where those in `done` have it.
pub proof fn lemma_argument_items(s: Seq<u8>, i: int, done: Seq<Tree>)
    requires
        argument_items(s, i, done) is Ok,
        forall|k: int| 0 <= k < done.len() ==> is_argument(s, #[trigger] done[k]),
    ensures
        argument_items(s, i, done)->Ok_0.len() > done.len(),
        forall|k: int|
            0 <= k < argument_items(s, i, done)->Ok_0.len() ==> is_argument(
                s,
                #[trigger] argument_items(s, i, done)->Ok_0[k],
            ),
    decreases s.len() - i,
{
    lemma_argument_at(s, i);
    lemma_argument_extent(s, i);
    let item = argument_at(s, i)->Ok_0;
    lemma_skip_spaces(s, item.next);
    let j = skip_spaces(s, item.next);
    let row = done.push(item.tree);
    assert forall|k: int| 0 <= k < row.len() implies is_argument(s, #[trigger] row[k]) by {
        if k < done.len() {
            assert(row[k] == done[k]);
        }
    }
    if has_byte(s, j, COMMA) {
        lemma_skip_spaces(s, j + 1);
        lemma_argument_items(s, skip_spaces(s, j + 1), row);
    }
}

/// Every item of a row of generic parameters that matched is an
/// identifier of the text, where those in `done` are.
pub proof fn lemma_generic_items(s: Seq<u8>, i: int, done: Seq<Tree>)
    requires
        generic_items(s, i, done) is Ok,
        forall|k: int| 0 <= k < done.len() ==> is_word(s, #[trigger] done[k]),
    ensures
        generic_items(s, i, done)->Ok_0.len() > done.len(),
        forall|k: int|
            0 <= k < generic_items(s, i, done)->Ok_0.len() ==> is_word(
                s,
                #[trigger] generic_items(s, i, done)->Ok_0[k],
            ),
    decreases s.len() - i,
{
    lemma_word_at(s, i, Rule::Identifier);
    let item = identifier_at(s, i)->Ok_0;
    lemma_skip_spaces(s, item.next);
    let j = skip_spaces(s, item.next);
    let row = done.push(item.tree);
    assert forall|k: int| 0 <= k < row.len() implies is_word(s, #[trigger] row[k]) by {
        if k < done.len() {
            assert(row[k] == done[k]);
        }
    }
    if has_byte(s, j, COMMA) {
        lemma_skip_spaces(s, j + 1);
        lemma_generic_items(s, skip_spaces(s, j + 1), row);
    }
}

/// True when `tree` has the shape of a signature of `s`: a name, generic
/// parameters, arguments and at most one return type, each an identifier of
/// the text where the model reads it.
pub open spec fn is_signature(s: Seq<u8>, tree: Tree) -> bool {
    &&& 3 <= tree.children.len() <= 4
    &&& is_word(s, tree.children[0])
    &&& forall|k: int|
        0 <= k < tree.children[1].children.len() ==> is_word(
            s,
            #[trigger] tree.children[1].children[k],
        )
    &&& forall|k: int|
        0 <= k < tree.children[2].children.len() ==> is_argument(
            s,
            #[trigger] tree.children[2].children[k],
        )
    &&& tree.children.len() == 4 ==> is_word(s, tree.children[3])
}

/// A signature that matched has the shape of one.
pub proof fn lemma_signature_at(s: Seq<u8>, i: int, rule: Rule)
    requires
        signature_at(s, i, rule) is Ok,
    ensures
        is_signature(s, signature_at(s, i, rule)->Ok_0.tree),
{
    let tree = signature_at(s, i, rule)->Ok_0.tree;
    let name_at = skip_spaces(s, i + 2);
    lemma_word_at(s, name_at, Rule::Identifier);
    let name = identifier_at(s, name_at)->Ok_0;
    let clause_at = skip_spaces(s, name.next);
    let generics = generic_clause(s, clause_at)->Ok_0;
    if has_byte(s, clause_at, OPEN_ANGLE) {
        lemma_generic_items(s, skip_spaces(s, clause_at + 1), Seq::empty());
    }
    let open = skip_spaces(s, generics.next);
    let args = arguments_at(s, open)->Ok_0;
    let first = skip_spaces(s, open + 1);
    if starts_pat(s, first) {
        lemma_argument_items(s, first, Seq::empty());
    }
    let arrow = skip_spaces(s, args.next);
    if has_arrow(s, arrow) {
        lemma_word_at(s, skip_spaces(s, arrow + 2), Rule::TypeDef);
        let ret = return_param_at(s, arrow)->Ok_0;
        assert(tree.children =~= seq![name.tree, generics.tree, args.tree, ret.tree]);
    } else {
        assert(tree.children =~= seq![name.tree, generics.tree, args.tree]);
    }
}

/// What a parsed signature takes from the start of its text. Its name is
/// the identifier that follows the keyword `fn`. Its generic parameters
/// are the identifiers of the clause that `<` opens behind the name, and
/// there are none where no `<` stands there.
pub proof fn lemma_name_and_generics(s: Seq<u8>)
    requires
        signature_of(s) is Ok,
    ensures
        ({
            let m = signature_of(s)->Ok_0;
            let keyword = skip_spaces(s, 0);
            let name = skip_spaces(s, keyword + 2);
            let name_end = ident_end(s, name + 1);
            let clause = skip_spaces(s, name_end);
            let first = skip_spaces(s, clause + 1);
            &&& has_keyword(s, keyword)
            &&& 0 <= name < name_end <= s.len()
            &&& is_ident_start(s[name])
            &&& m.macro_name == ascii_text(s.subrange(name, name_end))
            &&& is_identifier(m.macro_name)
            &&& !has_byte(s, clause, OPEN_ANGLE) ==> m.generics == Set::<
                Seq<char>,
            >::empty()
            &&& has_byte(s, clause, OPEN_ANGLE) ==> {
                let names = generic_items(s, first, Seq::empty());
                &&& names is Ok
                &&& m.generics == names->Ok_0.map_values(|name: Tree| span_text(s, name)).to_set()
                &&& forall|k: int|
                    0 <= k < names->Ok_0.len() ==> is_word(s, #[trigger] names->Ok_0[k])
            }
        }),
{
    let keyword = skip_spaces(s, 0);
    lemma_signature_at(s, keyword, Rule::Function);
    let tree = signature_at(s, keyword, Rule::Function)->Ok_0.tree;
    let name = skip_spaces(s, keyword + 2);
    lemma_word_at(s, name, Rule::Identifier);
    lemma_word_text(s, tree.children[0]);
    let clause = skip_spaces(s, ident_end(s, name + 1));
    if has_byte(s, clause, OPEN_ANGLE) {
        lemma_generic_items(s, skip_spaces(s, clause + 1), Seq::empty());
    } else {
        let none = Seq::<Tree>::empty().map_values(|name: Tree| span_text(s, name));
        assert(tree.children[1].children =~= Seq::<Tree>::empty());
        assert(none.to_set() =~= Set::<Seq<char>>::empty());
    }
}

/// The node of the first identifier of a pattern.
pub fn leading_node<'b>(pat: &'b Node) -> (name: &'b Node)
    ensures
        name@ == leading_identifier(pat@),
    decreases pat,
{
    proof {
        lemma_children_view(pat);
    }
    if pat.rule == Rule::Pat && pat.children.len() > 0 {
        leading_node(&pat.children[0])
    } else {
        pat
    }
}

/// The text of a node that spans an identifier of `input`.
pub fn node_text<'a>(input: &'a str, node: &Node) -> (text: &'a str)
    requires
        is_word(input.spec_bytes(), node@),
    ensures
        text@ == span_text(input.spec_bytes(), node@),
        is_identifier(text@),
{
    proof {
        lemma_word_text(input.spec_bytes(), node@);
    }
    ascii_slice(input, node.start, node.end)
}

/// The names of the generic parameters below `clause`, each once, in the
/// order in which the text first has it.
fn collect_generics<'a>(input: &'a str, clause: &Node) -> (names: Vec<&'a str>)
    requires
        forall|k: int|
            0 <= k < clause@.children.len() ==> is_word(
                input.spec_bytes(),
                #[trigger] clause@.children[k],
            ),
    ensures
        texts(names@).to_set() == clause@.children.map_values(
            |name: Tree| span_text(input.spec_bytes(), name),
        ).to_set(),
        forall|i: int, j: int| 0 <= i < j < names@.len() ==> names@[i]@ != names@[j]@,
        forall|i: int| 0 <= i < names@.len() ==> is_identifier(#[trigger] names@[i]@),
{
    let ghost s = input.spec_bytes();
    let ghost all = clause@.children.map_values(|name: Tree| span_text(s, name));
    proof {
        lemma_children_view(clause);
    }
    let mut names: Vec<&'a str> = Vec::new();
    let mut k: usize = 0;
    while k < clause.children.len()
        invariant
            k <= clause.children@.len(),
            s == input.spec_bytes(),
            clause@.children == trees(clause.children@),
            all == clause@.children.map_values(|name: Tree| span_text(s, name)),
            forall|n: int|
                0 <= n < clause@.children.len() ==> is_word(s, #[trigger] clause@.children[n]),
            texts(names@).to_set() == all.take(k as int).to_set(),
            forall|i: int, j: int| 0 <= i < j < names@.len() ==> names@[i]@ != names@[j]@,
            forall|i: int| 0 <= i < names@.len() ==> is_identifier(#[trigger] names@[i]@),
        decreases clause.children@.len() - k,
    {
        let ghost before = names@;
        assert(is_word(s, clause@.children[k as int]));
        let text = node_text(input, &clause.children[k]);
        assert(text@ == all[k as int]);
        let known = holds_text(&names, text);
        if !known {
            names.push(text);
        }
        proof {
            let old_names = texts(before);
            let new_names = texts(names@);
            let old_part = all.take(k as int);
            let new_part = all.take(k + 1);
            assert(new_part[k as int] == text@);
            assert forall|t: Seq<char>|
                new_names.to_set().contains(t) == new_part.to_set().contains(t) by {
                if new_names.contains(t) {
                    let n = choose|n: int| 0 <= n < new_names.len() && new_names[n] == t;
                    if n < before.len() {
                        assert(old_names[n] == t);
                        assert(old_names.to_set().contains(t));
                        assert(old_part.contains(t));
                        let m = choose|m: int| 0 <= m < old_part.len() && old_part[m] == t;
                        assert(new_part[m] == t);
                    } else {
                        assert(new_part[k as int] == t);
                    }
                    assert(new_part.contains(t));
                }
                if new_part.contains(t) {
                    let m = choose|m: int| 0 <= m < new_part.len() && new_part[m] == t;
                    if m < k {
                        assert(old_part[m] == t);
                        assert(old_part.to_set().contains(t));
                        assert(old_names.contains(t));
                        let n = choose|n: int| 0 <= n < old_names.len() && old_names[n] == t;
                        assert(new_names[n] == t);
                    } else if known {
                        assert(old_names.contains(t));
                        let n = choose|n: int| 0 <= n < old_names.len() && old_names[n] == t;
                        assert(new_names[n] == t);
                    } else {
                        assert(new_names[before.len() as int] == t);
                    }
                    assert(new_names.contains(t));
                }
            }
            assert(new_names.to_set() =~= new_part.to_set());
            if !known {
                assert forall|i: int, j: int| 0 <= i < j < names@.len() implies names@[i]@
                    != names@[j]@ by {
                    if j == before.len() {
                        assert(old_names[i] == before[i]@);
                        assert(old_names.contains(before[i]@));
                    }
                }
            }
        }
        k += 1;
    }
    assert(all.take(k as int) =~= all);
    names
}

/// The arguments below `list`, in the order of the text.
fn collect_arguments<'a>(input: &'a str, list: &Node) -> (args: Vec<Argument<'a>>)
    requires
        forall|k: int|
            0 <= k < list@.children.len() ==> is_argument(
                input.spec_bytes(),
                #[trigger] list@.children[k],
            ),
    ensures
        argument_models(args@) == list@.children.map_values(
            |arg: Tree| argument_model(input.spec_bytes(), arg),
        ),
        forall|k: int|
            0 <= k < args@.len() ==> is_identifier(#[trigger] args@[k]@.name) && is_identifier(
                args@[k]@.type_def,
            ),
{
    let ghost s = input.spec_bytes();
    proof {
        lemma_children_view(list);
    }
    let mut args: Vec<Argument<'a>> = Vec::new();
    let mut k: usize = 0;
    while k < list.children.len()
        invariant
            k <= list.children@.len(),
            s == input.spec_bytes(),
            list@.children == trees(list.children@),
            forall|n: int|
                0 <= n < list@.children.len() ==> is_argument(s, #[trigger] list@.children[n]),
            args@.len() == k,
            forall|n: int|
                0 <= n < k ==> (#[trigger] args@[n])@ == argument_model(s, list@.children[n]),
            forall|n: int|
                0 <= n < k ==> is_identifier(#[trigger] args@[n]@.name) && is_identifier(
                    args@[n]@.type_def,
                ),
        decreases list.children@.len() - k,
    {
        let item = &list.children[k];
        proof {
            lemma_children_view(item);
            assert(is_argument(s, list@.children[k as int]));
            assert(item@ == list@.children[k as int]);
        }
        let name = node_text(input, leading_node(&item.children[0]));
        let type_def = node_text(input, &item.children[1]);
        args.push(Argument { name, type_def });
        k += 1;
    }
    assert(argument_models(args@) =~= list@.children.map_values(
        |arg: Tree| argument_model(s, arg),
    ));
    args
}

/// Reads the signature off the syntax tree of `input`.
///
/// `tree` must be the tree that the grammar gives for `input` as a
/// `function`. The name of an argument is the first identifier of its
/// pattern; equal generic parameters are listed once.
pub fn extract<'a>(input: &'a str, tree: &Node) -> (model: ReturnType<'a>)
    requires
        parse_text(Rule::Function, input.spec_bytes()) == Ok::<Tree, Failure>(tree@),
    ensures
        model@ == signature_model(input.spec_bytes(), tree@),
        model.wf(),
{
    let ghost s = input.spec_bytes();
    proof {
        lemma_signature_at(s, skip_spaces(s, 0), Rule::Function);
        lemma_children_view(tree);
    }
    let macro_name = node_text(input, &tree.children[0]);
    let generics = collect_generics(input, &tree.children[1]);
    let args = collect_arguments(input, &tree.children[2]);
    let return_param = if tree.children.len() > 3 {
        Some(node_text(input, &tree.children[3]))
    } else {
        None
    };
    let model = ReturnType { macro_name, generics, args, return_param };
    proof {
        let m = model@;
        assert(m.generics.finite()) by {
            vstd::seq_lib::seq_to_set_is_finite(texts(model.generics@));
        }
        assert forall|name: Seq<char>| m.generics.contains(name) implies is_identifier(name) by {
            let n = choose|n: int|
                0 <= n < texts(model.generics@).len() && texts(model.generics@)[n] == name;
            assert(model.generics@[n]@ == name);
        }
    }
    model
}

/// Parses `input` as a signature.
///
/// The answer is the signature that the text states, with every name and
/// type an identifier and each generic parameter listed once, or the
/// failure that the grammar assigns to the text.
pub fn parse_signature<'a>(input: &'a str) -> (r: Result<ReturnType<'a>, GrammarError>)
    ensures
        match r {
            Ok(model) => signature_of(input.spec_bytes()) == Ok::<SignatureModel, Failure>(model@)
                && model.wf(),
            Err(e) => signature_of(input.spec_bytes()) == Err::<SignatureModel, Failure>(e@),
        },
{
    match TemplateFn::parse(Rule::Function, input) {
        Ok(tree) => Ok(extract(input, &tree)),
        Err(e) => Err(e),
    }
}

} // verus!
