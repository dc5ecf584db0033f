//! A signature that is written out and parsed again is the signature
//! that was written.

use vstd::prelude::*;
use crate::error::Failure;
use crate::extract::{argument_model, leading_identifier, signature_model, signature_of, span_text};
use crate::grammar::{
    argument_at, argument_items, arguments_at, generic_clause, generic_items, has_arrow,
    identifier_at, parse_text, pat_at, return_param_at, signature_at, starts_pat, word_at, Match,
};
use crate::lexical::{
    has_byte, ident_end, is_ident_part, is_ident_start, is_space, skip_spaces, CLOSE_ANGLE,
    CLOSE_PAREN, COLON, COMMA, HYPHEN, LOWER_F, LOWER_N, OPEN_ANGLE, OPEN_PAREN,
};
use crate::model::{ArgumentModel, SignatureModel};
use crate::text::ascii_text;
use crate::tree::{leaf, Rule, Tree};

verus! {

/// True when `word` is an identifier, byte for byte.
pub open spec fn is_ident_bytes(word: Seq<u8>) -> bool {
    &&& word.len() > 0
    &&& is_ident_start(word[0])
    &&& forall|k: int| 0 <= k < word.len() ==> is_ident_part(#[trigger] word[k])
}

/// What is left of `s` from offset `i` on.
pub open spec fn tail_of(s: Seq<u8>, i: int) -> Seq<u8> {
    s.subrange(i, s.len() as int)
}

/// True when a token other than a name starts `rest`, or nothing does.
pub open spec fn stops_word(rest: Seq<u8>) -> bool {
    rest.len() == 0 || (!is_ident_part(rest[0]) && !is_space(rest[0]))
}

proof fn lemma_tail_split(s: Seq<u8>, i: int, x: Seq<u8>, rest: Seq<u8>)
    requires
        0 <= i <= s.len(),
        tail_of(s, i) == x + rest,
    ensures
        i + x.len() + rest.len() == s.len(),
        forall|j: int| 0 <= j < x.len() ==> s[i + j] == #[trigger] x[j],
        forall|j: int| 0 <= j < rest.len() ==> s[i + x.len() + j] == #[trigger] rest[j],
        s.subrange(i, i + x.len()) == x,
        tail_of(s, i + x.len()) == rest,
{
    let t = tail_of(s, i);
    assert(t.len() == s.len() - i);
    assert forall|j: int| 0 <= j < x.len() implies s[i + j] == #[trigger] x[j] by {
        assert(t[j] == s[i + j]);
        assert((x + rest)[j] == x[j]);
    }
    assert forall|j: int| 0 <= j < rest.len() implies s[i + x.len() + j] == #[trigger] rest[j] by {
        assert(t[x.len() + j] == s[i + x.len() + j]);
        assert((x + rest)[x.len() + j] == rest[j]);
    }
    assert(s.subrange(i, i + x.len()) =~= x);
    assert(tail_of(s, i + x.len()) =~= rest);
}

proof fn lemma_run_end(s: Seq<u8>, i: int, run: Seq<u8>, rest: Seq<u8>)
    requires
        0 <= i <= s.len(),
        tail_of(s, i) == run + rest,
        forall|k: int| 0 <= k < run.len() ==> is_ident_part(#[trigger] run[k]),
        rest.len() == 0 || !is_ident_part(rest[0]),
    ensures
        ident_end(s, i) == i + run.len(),
    decreases run.len(),
{
    lemma_tail_split(s, i, run, rest);
    if run.len() == 0 {
        if rest.len() > 0 {
            assert(s[i + 0 + 0] == rest[0]);
        }
    } else {
        assert(s[i + 0] == run[0]);
        let shorter = run.drop_first();
        assert(run + rest =~= seq![run[0]] + (shorter + rest));
        lemma_tail_split(s, i, seq![run[0]], shorter + rest);
        assert forall|k: int| 0 <= k < shorter.len() implies is_ident_part(
            #[trigger] shorter[k],
        ) by {
            assert(shorter[k] == run[k + 1]);
        }
        lemma_run_end(s, i + 1, shorter, rest);
    }
}

proof fn lemma_no_space(s: Seq<u8>, i: int, rest: Seq<u8>)
    requires
        0 <= i <= s.len(),
        tail_of(s, i) == rest,
        rest.len() == 0 || !is_space(rest[0]),
    ensures
        skip_spaces(s, i) == i,
{
    if i < s.len() {
        assert(tail_of(s, i)[0] == s[i]);
    }
}

/// A name written at `i`, with no name byte behind it, is read as a word
/// that spans it.
proof fn lemma_word_read(s: Seq<u8>, i: int, word: Seq<u8>, rest: Seq<u8>, rule: Rule)
    requires
        0 <= i <= s.len(),
        tail_of(s, i) == word + rest,
        is_ident_bytes(word),
        stops_word(rest),
    ensures
        word_at(s, i, rule) == Ok::<Match, Failure>(
            Match { tree: leaf(rule, i, i + word.len()), next: i + word.len() },
        ),
        span_text(s, leaf(rule, i, i + word.len())) == ascii_text(word),
        tail_of(s, i + word.len()) == rest,
        i < i + word.len() <= s.len(),
        skip_spaces(s, i + word.len()) == i + word.len(),
        skip_spaces(s, i) == i,
        !has_byte(s, i, OPEN_PAREN),
{
    lemma_tail_split(s, i, word, rest);
    assert(s[i + 0] == word[0]);
    let shorter = word.drop_first();
    assert(word + rest =~= seq![word[0]] + (shorter + rest));
    lemma_tail_split(s, i, seq![word[0]], shorter + rest);
    assert forall|k: int| 0 <= k < shorter.len() implies is_ident_part(#[trigger] shorter[k]) by {
        assert(shorter[k] == word[k + 1]);
    }
    lemma_run_end(s, i + 1, shorter, rest);
    lemma_no_space(s, i + word.len(), rest);
    lemma_no_space(s, i, word + rest);
}

/// The names from the `k`th on, with a comma between each two.
pub open spec fn names_bytes(names: Seq<Seq<u8>>, k: int) -> Seq<u8>
    decreases names.len() - k,
{
    if k < 0 || k >= names.len() {
        Seq::empty()
    } else if k == names.len() - 1 {
        names[k]
    } else {
        names[k] + seq![COMMA] + names_bytes(names, k + 1)
    }
}

proof fn lemma_names_read(
    s: Seq<u8>,
    i: int,
    names: Seq<Seq<u8>>,
    k: int,
    rest: Seq<u8>,
    done: Seq<Tree>,
)
    requires
        0 <= i <= s.len(),
        0 <= k < names.len(),
        forall|j: int| 0 <= j < names.len() ==> is_ident_bytes(#[trigger] names[j]),
        tail_of(s, i) == names_bytes(names, k) + rest,
        rest.len() > 0,
        rest[0] == CLOSE_ANGLE,
        done.len() == k,
        forall|j: int| 0 <= j < k ==> span_text(s, #[trigger] done[j]) == ascii_text(names[j]),
    ensures
        generic_items(s, i, done) is Ok,
        generic_items(s, i, done)->Ok_0.len() == names.len(),
        forall|j: int|
            0 <= j < names.len() ==> span_text(s, #[trigger] generic_items(s, i, done)->Ok_0[j])
                == ascii_text(names[j]),
        tail_of(s, generic_items(s, i, done)->Ok_0.last().end) == rest,
        0 <= generic_items(s, i, done)->Ok_0.last().end <= s.len(),
    decreases names.len() - k,
{
    let word = names[k];
    let item = leaf(Rule::Identifier, i, i + word.len());
    let row = done.push(item);
    if k == names.len() - 1 {
        lemma_word_read(s, i, word, rest, Rule::Identifier);
        lemma_tail_split(s, i + word.len(), Seq::empty(), rest);
        assert(s[i + word.len() + 0 + 0] == rest[0]);
        assert forall|j: int| 0 <= j < names.len() implies span_text(s, #[trigger] row[j])
            == ascii_text(names[j]) by {
            if j < k {
                assert(row[j] == done[j]);
            }
        }
    } else {
        let more = seq![COMMA] + (names_bytes(names, k + 1) + rest);
        assert(names_bytes(names, k) + rest =~= word + more);
        lemma_word_read(s, i, word, more, Rule::Identifier);
        let j = i + word.len();
        lemma_tail_split(s, j, seq![COMMA], names_bytes(names, k + 1) + rest);
        assert(s[j + 0] == seq![COMMA][0]);
        let next = names[k + 1];
        assert(is_ident_bytes(next));
        if k + 1 == names.len() - 1 {
            assert(names_bytes(names, k + 1) + rest =~= next + rest);
            lemma_tail_split(s, j + 1, next, rest);
        } else {
            let after = seq![COMMA] + (names_bytes(names, k + 2) + rest);
            assert(names_bytes(names, k + 1) + rest =~= next + after);
            lemma_tail_split(s, j + 1, next, after);
        }
        assert(s[j + 1 + 0] == next[0]);
        lemma_no_space(s, j + 1, names_bytes(names, k + 1) + rest);
        assert forall|n: int| 0 <= n < k + 1 implies span_text(s, #[trigger] row[n]) == ascii_text(
            names[n],
        ) by {
            if n < k {
                assert(row[n] == done[n]);
            }
        }
        lemma_names_read(s, j + 1, names, k + 1, rest, row);
    }
}

/// An argument to write: the bytes of its name and of its type.
pub struct WrittenArgument {
    pub name: Seq<u8>,
    pub type_def: Seq<u8>,
}

/// The argument that is read back from a written one.
pub open spec fn read_argument(arg: WrittenArgument) -> ArgumentModel {
    ArgumentModel { name: ascii_text(arg.name), type_def: ascii_text(arg.type_def) }
}

/// An argument as it is written: `name:type`.
pub open spec fn argument_bytes(arg: WrittenArgument) -> Seq<u8> {
    arg.name + seq![COLON] + arg.type_def
}

/// The arguments from the `k`th on, with a comma between each two.
pub open spec fn arguments_bytes(args: Seq<WrittenArgument>, k: int) -> Seq<u8>
    decreases args.len() - k,
{
    if k < 0 || k >= args.len() {
        Seq::empty()
    } else if k == args.len() - 1 {
        argument_bytes(args[k])
    } else {
        argument_bytes(args[k]) + seq![COMMA] + arguments_bytes(args, k + 1)
    }
}

/// True when the name and the type of `arg` are identifiers.
pub open spec fn is_written_argument(arg: WrittenArgument) -> bool {
    is_ident_bytes(arg.name) && is_ident_bytes(arg.type_def)
}

proof fn lemma_argument_read(s: Seq<u8>, i: int, arg: WrittenArgument, rest: Seq<u8>)
    requires
        0 <= i <= s.len(),
        tail_of(s, i) == argument_bytes(arg) + rest,
        is_written_argument(arg),
        stops_word(rest),
    ensures
        argument_at(s, i) is Ok,
        argument_model(s, argument_at(s, i)->Ok_0.tree) == read_argument(arg),
        argument_at(s, i)->Ok_0.next == i + argument_bytes(arg).len(),
        argument_at(s, i)->Ok_0.tree.end == i + argument_bytes(arg).len(),
        i + argument_bytes(arg).len() <= s.len(),
        tail_of(s, i + argument_bytes(arg).len()) == rest,
        skip_spaces(s, i + argument_bytes(arg).len()) == i + argument_bytes(arg).len(),
        skip_spaces(s, i) == i,
        starts_pat(s, i),
{
    let behind_name = seq![COLON] + (arg.type_def + rest);
    assert(argument_bytes(arg) + rest =~= arg.name + behind_name);
    lemma_word_read(s, i, arg.name, behind_name, Rule::Identifier);
    lemma_tail_split(s, i, arg.name, behind_name);
    assert(s[i + 0] == arg.name[0]);
    let colon = i + arg.name.len();
    lemma_tail_split(s, colon, seq![COLON], arg.type_def + rest);
    assert(s[colon + 0] == seq![COLON][0]);
    lemma_word_read(s, colon + 1, arg.type_def, rest, Rule::TypeDef);
    let name = leaf(Rule::Identifier, i, colon);
    let pat = pat_at(s, i)->Ok_0.tree;
    assert(pat.children[0] == name);
    assert(leading_identifier(name) == name);
    assert(leading_identifier(pat) == name);
}

proof fn lemma_arguments_read(
    s: Seq<u8>,
    i: int,
    args: Seq<WrittenArgument>,
    k: int,
    rest: Seq<u8>,
    done: Seq<Tree>,
)
    requires
        0 <= i <= s.len(),
        0 <= k < args.len(),
        forall|j: int| 0 <= j < args.len() ==> is_written_argument(#[trigger] args[j]),
        tail_of(s, i) == arguments_bytes(args, k) + rest,
        rest.len() > 0,
        rest[0] == CLOSE_PAREN,
        done.len() == k,
        forall|j: int|
            0 <= j < k ==> argument_model(s, #[trigger] done[j]) == read_argument(args[j]),
    ensures
        argument_items(s, i, done) is Ok,
        argument_items(s, i, done)->Ok_0.len() == args.len(),
        forall|j: int|
            0 <= j < args.len() ==> argument_model(
                s,
                #[trigger] argument_items(s, i, done)->Ok_0[j],
            ) == read_argument(args[j]),
        tail_of(s, argument_items(s, i, done)->Ok_0.last().end) == rest,
        0 <= argument_items(s, i, done)->Ok_0.last().end <= s.len(),
    decreases args.len() - k,
{
    let arg = args[k];
    assert(is_written_argument(arg));
    if k == args.len() - 1 {
        lemma_argument_read(s, i, arg, rest);
        let item = argument_at(s, i)->Ok_0;
        let row = done.push(item.tree);
        lemma_tail_split(s, item.next, Seq::empty(), rest);
        assert(s[item.next + 0 + 0] == rest[0]);
        assert forall|j: int| 0 <= j < args.len() implies argument_model(s, #[trigger] row[j])
            == read_argument(args[j]) by {
            if j < k {
                assert(row[j] == done[j]);
            }
        }
    } else {
        let more = seq![COMMA] + (arguments_bytes(args, k + 1) + rest);
        assert(arguments_bytes(args, k) + rest =~= argument_bytes(arg) + more);
        lemma_argument_read(s, i, arg, more);
        let item = argument_at(s, i)->Ok_0;
        let row = done.push(item.tree);
        let j = item.next;
        lemma_tail_split(s, j, seq![COMMA], arguments_bytes(args, k + 1) + rest);
        assert(s[j + 0] == seq![COMMA][0]);
        let next = args[k + 1];
        assert(is_written_argument(next));
        let next_tail = seq![COLON] + next.type_def;
        if k + 1 == args.len() - 1 {
            assert(arguments_bytes(args, k + 1) + rest =~= next.name + (next_tail + rest));
            lemma_tail_split(s, j + 1, next.name, next_tail + rest);
        } else {
            let after = next_tail + seq![COMMA] + arguments_bytes(args, k + 2) + rest;
            assert(arguments_bytes(args, k + 1) + rest =~= next.name + after);
            lemma_tail_split(s, j + 1, next.name, after);
        }
        assert(s[j + 1 + 0] == next.name[0]);
        lemma_no_space(s, j + 1, arguments_bytes(args, k + 1) + rest);
        assert forall|n: int| 0 <= n < k + 1 implies argument_model(s, #[trigger] row[n])
            == read_argument(args[n]) by {
            if n < k {
                assert(row[n] == done[n]);
            }
        }
        lemma_arguments_read(s, j + 1, args, k + 1, rest, row);
    }
}

/// The clause of generic parameters as it is written: nothing where there
/// are none, else the names between `<` and `>`.
pub open spec fn clause_bytes(generics: Seq<Seq<u8>>) -> Seq<u8> {
    if generics.len() == 0 {
        Seq::empty()
    } else {
        seq![OPEN_ANGLE] + names_bytes(generics, 0) + seq![CLOSE_ANGLE]
    }
}

/// The return type as it is written: nothing where there is none, else
/// the arrow and the type.
pub open spec fn return_bytes(return_param: Option<Seq<u8>>) -> Seq<u8> {
    match return_param {
        Some(type_def) => seq![HYPHEN, CLOSE_ANGLE] + type_def,
        None => Seq::empty(),
    }
}

proof fn lemma_clause_read(s: Seq<u8>, i: int, generics: Seq<Seq<u8>>, rest: Seq<u8>)
    requires
        0 <= i <= s.len(),
        forall|j: int| 0 <= j < generics.len() ==> is_ident_bytes(#[trigger] generics[j]),
        tail_of(s, i) == clause_bytes(generics) + rest,
        rest.len() > 0,
        rest[0] == OPEN_PAREN,
    ensures
        generic_clause(s, i) is Ok,
        generic_clause(s, i)->Ok_0.tree.children.map_values(|name: Tree| span_text(s, name))
            == generics.map_values(|name: Seq<u8>| ascii_text(name)),
        i <= generic_clause(s, i)->Ok_0.next <= s.len(),
        tail_of(s, generic_clause(s, i)->Ok_0.next) == rest,
{
    let read = generics.map_values(|name: Seq<u8>| ascii_text(name));
    if generics.len() == 0 {
        lemma_tail_split(s, i, Seq::empty(), rest);
        assert(s[i + 0 + 0] == rest[0]);
        let none = Seq::<Tree>::empty().map_values(|name: Tree| span_text(s, name));
        assert(none =~= read);
    } else {
        let behind = seq![CLOSE_ANGLE] + rest;
        let inside = names_bytes(generics, 0) + behind;
        assert(clause_bytes(generics) + rest =~= seq![OPEN_ANGLE] + inside);
        lemma_tail_split(s, i, seq![OPEN_ANGLE], inside);
        assert(s[i + 0] == seq![OPEN_ANGLE][0]);
        let first = generics[0];
        assert(is_ident_bytes(first));
        if generics.len() == 1 {
            assert(inside =~= first + behind);
            lemma_tail_split(s, i + 1, first, behind);
        } else {
            let after = seq![COMMA] + names_bytes(generics, 1) + behind;
            assert(inside =~= first + after);
            lemma_tail_split(s, i + 1, first, after);
        }
        assert(s[i + 1 + 0] == first[0]);
        lemma_no_space(s, i + 1, inside);
        lemma_names_read(s, i + 1, generics, 0, behind, Seq::empty());
        let items = generic_items(s, i + 1, Seq::empty())->Ok_0;
        let close = items.last().end;
        lemma_tail_split(s, close, seq![CLOSE_ANGLE], rest);
        assert(s[close + 0] == seq![CLOSE_ANGLE][0]);
        lemma_no_space(s, close, behind);
        assert(items.map_values(|name: Tree| span_text(s, name)) =~= read);
    }
}

proof fn lemma_list_read(s: Seq<u8>, i: int, args: Seq<WrittenArgument>, rest: Seq<u8>)
    requires
        0 <= i <= s.len(),
        forall|j: int| 0 <= j < args.len() ==> is_written_argument(#[trigger] args[j]),
        tail_of(s, i) == seq![OPEN_PAREN] + arguments_bytes(args, 0) + seq![CLOSE_PAREN] + rest,
    ensures
        arguments_at(s, i) is Ok,
        arguments_at(s, i)->Ok_0.tree.children.map_values(|arg: Tree| argument_model(s, arg))
            == args.map_values(|arg: WrittenArgument| read_argument(arg)),
        i <= arguments_at(s, i)->Ok_0.next <= s.len(),
        tail_of(s, arguments_at(s, i)->Ok_0.next) == rest,
{
    let read = args.map_values(|arg: WrittenArgument| read_argument(arg));
    let behind = seq![CLOSE_PAREN] + rest;
    let inside = arguments_bytes(args, 0) + behind;
    assert(seq![OPEN_PAREN] + arguments_bytes(args, 0) + seq![CLOSE_PAREN] + rest =~= seq![
        OPEN_PAREN,
    ] + inside);
    lemma_tail_split(s, i, seq![OPEN_PAREN], inside);
    assert(s[i + 0] == seq![OPEN_PAREN][0]);
    if args.len() == 0 {
        assert(inside =~= behind);
        lemma_tail_split(s, i + 1, seq![CLOSE_PAREN], rest);
        assert(s[i + 1 + 0] == seq![CLOSE_PAREN][0]);
        lemma_no_space(s, i + 1, behind);
        let none = Seq::<Tree>::empty().map_values(|arg: Tree| argument_model(s, arg));
        assert(none =~= read);
    } else {
        let first = args[0];
        assert(is_written_argument(first));
        let first_tail = seq![COLON] + first.type_def;
        if args.len() == 1 {
            assert(inside =~= first.name + (first_tail + behind));
            lemma_tail_split(s, i + 1, first.name, first_tail + behind);
        } else {
            let after = first_tail + seq![COMMA] + arguments_bytes(args, 1) + behind;
            assert(inside =~= first.name + after);
            lemma_tail_split(s, i + 1, first.name, after);
        }
        assert(s[i + 1 + 0] == first.name[0]);
        lemma_no_space(s, i + 1, inside);
        lemma_arguments_read(s, i + 1, args, 0, behind, Seq::empty());
        let items = argument_items(s, i + 1, Seq::empty())->Ok_0;
        let close = items.last().end;
        lemma_tail_split(s, close, seq![CLOSE_PAREN], rest);
        assert(s[close + 0] == seq![CLOSE_PAREN][0]);
        lemma_no_space(s, close, behind);
        assert(items.map_values(|arg: Tree| argument_model(s, arg)) =~= read);
    }
}

proof fn lemma_return_read(s: Seq<u8>, i: int, return_param: Option<Seq<u8>>)
    requires
        0 <= i <= s.len(),
        return_param matches Some(type_def) ==> is_ident_bytes(type_def),
        tail_of(s, i) == return_bytes(return_param),
    ensures
        skip_spaces(s, i) == i,
        has_arrow(s, i) == return_param is Some,
        return_param is None ==> i == s.len(),
        return_param is Some ==> {
            &&& return_param_at(s, i) is Ok
            &&& return_param_at(s, i)->Ok_0.next == s.len()
            &&& span_text(s, return_param_at(s, i)->Ok_0.tree) == ascii_text(
                return_param->Some_0,
            )
        },
{
    match return_param {
        Some(type_def) => {
            assert(return_bytes(return_param) =~= seq![HYPHEN, CLOSE_ANGLE] + type_def);
            lemma_tail_split(s, i, seq![HYPHEN, CLOSE_ANGLE], type_def);
            assert(s[i + 0] == seq![HYPHEN, CLOSE_ANGLE][0]);
            assert(s[i + 1] == seq![HYPHEN, CLOSE_ANGLE][1]);
            lemma_no_space(s, i, return_bytes(return_param));
            assert(type_def =~= type_def + Seq::<u8>::empty());
            lemma_word_read(s, i + 2, type_def, Seq::empty(), Rule::TypeDef);
        },
        None => {
            lemma_no_space(s, i, Seq::empty());
        },
    }
}

/// A signature to write: the bytes of its name, of its generic
/// parameters, of its arguments and of its return type.
pub struct WrittenSignature {
    pub name: Seq<u8>,
    pub generics: Seq<Seq<u8>>,
    pub args: Seq<WrittenArgument>,
    pub return_param: Option<Seq<u8>>,
}

/// True when every name and every type of `w` is an identifier.
pub open spec fn is_written_signature(w: WrittenSignature) -> bool {
    &&& is_ident_bytes(w.name)
    &&& forall|j: int| 0 <= j < w.generics.len() ==> is_ident_bytes(#[trigger] w.generics[j])
    &&& forall|j: int| 0 <= j < w.args.len() ==> is_written_argument(#[trigger] w.args[j])
    &&& w.return_param matches Some(type_def) ==> is_ident_bytes(type_def)
}

/// A signature as it is written, with one blank behind the keyword and
/// no other whitespace: `fn name<A,B>(x:A,y:u8)->B`.
pub open spec fn signature_bytes(w: WrittenSignature) -> Seq<u8> {
    seq![LOWER_F, LOWER_N, 0x20u8] + w.name + clause_bytes(w.generics) + seq![OPEN_PAREN]
        + arguments_bytes(w.args, 0) + seq![CLOSE_PAREN] + return_bytes(w.return_param)
}

/// The signature that is read back from a written one.
pub open spec fn read_signature(w: WrittenSignature) -> SignatureModel {
    SignatureModel {
        macro_name: ascii_text(w.name),
        generics: w.generics.map_values(|name: Seq<u8>| ascii_text(name)).to_set(),
        args: w.args.map_values(|arg: WrittenArgument| read_argument(arg)),
        return_param: match w.return_param {
            Some(type_def) => Some(ascii_text(type_def)),
            None => None,
        },
    }
}

/// Writing and reading are inverse. Any name, generic parameters,
/// arguments and return type that are identifiers, written as a
/// signature, are accepted, and parsing gives back that name, exactly those
/// generic parameters as a set, those arguments in their order and that
/// return type: none where none was written.
pub proof fn lemma_written_signature_is_read(w: WrittenSignature)
    requires
        is_written_signature(w),
    ensures
        signature_of(signature_bytes(w)) == Ok::<SignatureModel, Failure>(read_signature(w)),
{
    let s = signature_bytes(w);
    let list = seq![OPEN_PAREN] + arguments_bytes(w.args, 0) + seq![CLOSE_PAREN] + return_bytes(
        w.return_param,
    );
    let behind_name = clause_bytes(w.generics) + list;
    let head = seq![LOWER_F, LOWER_N, 0x20u8];
    assert(s =~= head + (w.name + behind_name));
    assert(tail_of(s, 0) =~= s);
    lemma_tail_split(s, 0, head, w.name + behind_name);
    assert(s[0int + 0] == head[0]);
    assert(s[0int + 1] == head[1]);
    assert(s[0int + 2] == head[2]);
    assert(s[3int + 0] == (w.name + behind_name)[0]);
    assert(skip_spaces(s, 0) == 0);
    lemma_no_space(s, 3, w.name + behind_name);
    assert(skip_spaces(s, 2) == 3);
    assert(list[0] == OPEN_PAREN);
    assert(behind_name[0] == if w.generics.len() == 0 {
        OPEN_PAREN
    } else {
        OPEN_ANGLE
    }) by {
        if w.generics.len() > 0 {
            assert(clause_bytes(w.generics)[0] == OPEN_ANGLE);
        } else {
            assert(behind_name =~= list);
        }
    }
    lemma_word_read(s, 3, w.name, behind_name, Rule::Identifier);
    let name = identifier_at(s, 3)->Ok_0;
    let clause_at = name.next;
    lemma_clause_read(s, clause_at, w.generics, list);
    let generics = generic_clause(s, clause_at)->Ok_0;
    let open = generics.next;
    lemma_no_space(s, open, list);
    lemma_list_read(s, open, w.args, return_bytes(w.return_param));
    let args = arguments_at(s, open)->Ok_0;
    let arrow = args.next;
    lemma_return_read(s, arrow, w.return_param);
    let found = signature_at(s, 0, Rule::Function);
    assert(found is Ok);
    let tree = found->Ok_0.tree;
    assert(tree.children[0] == name.tree);
    assert(tree.children[1] == generics.tree);
    assert(tree.children[2] == args.tree);
    assert(found->Ok_0.next == s.len());
    assert(skip_spaces(s, s.len() as int) == s.len());
    assert(parse_text(Rule::Function, s) == Ok::<Tree, Failure>(tree));
    let m = signature_model(s, tree);
    assert(m.macro_name == ascii_text(w.name));
    assert(m.args == read_signature(w).args);
    assert(m.generics == read_signature(w).generics);
    assert(m.return_param == read_signature(w).return_param);
}

} // verus!
