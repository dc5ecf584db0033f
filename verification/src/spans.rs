//! The spans of a syntax tree lie inside the text and inside one another.

use vstd::prelude::*;
use crate::error::Failure;
use crate::grammar::{
    argument_at, argument_items, arguments_at, generic_clause, generic_items, generics_at,
    has_arrow, identifier_at, lemma_argument_extent, lemma_pat_extent, parse_text,
    pat_at, pat_items, return_param_at, rule_at, signature_at, starts_pat, word_at, Match,
};
use crate::lexical::{
    has_byte, lemma_ident_end, lemma_skip_spaces, skip_spaces, COMMA, OPEN_ANGLE, OPEN_PAREN,
};
use crate::tree::{Rule, Tree};

verus! {

/// True when every node of `t` spans a range of offsets, holds its
/// children inside its span and has them one behind another, in the order
/// of the text.
pub open spec fn spans_nested(t: Tree) -> bool
    decreases t,
{
    &&& 0 <= t.start <= t.end
    &&& forall|k: int|
        0 <= k < t.children.len() ==> {
            &&& t.start <= (#[trigger] t.children[k]).start
            &&& t.children[k].end <= t.end
            &&& spans_nested(t.children[k])
        }
    &&& forall|j: int, k: int|
        0 <= j < k < t.children.len() ==> (#[trigger] t.children[j]).end
            <= (#[trigger] t.children[k]).start
}

/// True when the nodes of `row` are nested, stand one behind another and
/// lie between `from` and `to`.
pub open spec fn row_nested(row: Seq<Tree>, from: int, to: int) -> bool {
    &&& forall|k: int|
        0 <= k < row.len() ==> {
            &&& from <= (#[trigger] row[k]).start
            &&& row[k].end <= to
            &&& spans_nested(row[k])
        }
    &&& forall|j: int, k: int|
        0 <= j < k < row.len() ==> (#[trigger] row[j]).end <= (#[trigger] row[k]).start
}

/// True when what a production gave at `i` is a nested tree that lies
/// between `i` and the end of what was consumed.
pub open spec fn nested_match(r: Result<Match, Failure>, s: Seq<u8>, i: int) -> bool {
    r matches Ok(m) ==> spans_nested(m.tree) && i <= m.tree.start && m.tree.end <= m.next
        <= s.len()
}

proof fn lemma_row_push(row: Seq<Tree>, item: Tree, from: int, to: int, next: int)
    requires
        row_nested(row, from, to),
        spans_nested(item),
        from <= to <= item.start,
        item.end <= next,
    ensures
        row_nested(row.push(item), from, next),
{
    let grown = row.push(item);
    assert forall|k: int| 0 <= k < grown.len() implies {
        &&& from <= (#[trigger] grown[k]).start
        &&& grown[k].end <= next
        &&& spans_nested(grown[k])
    } by {
        if k < row.len() {
            assert(grown[k] == row[k]);
        }
    }
    assert forall|j: int, k: int| 0 <= j < k < grown.len() implies (#[trigger] grown[j]).end <= (
    #[trigger] grown[k]).start by {
        assert(grown[j] == row[j]);
        if k < row.len() {
            assert(grown[k] == row[k]);
        }
    }
}

proof fn lemma_word_nested(s: Seq<u8>, i: int, rule: Rule)
    requires
        0 <= i <= s.len(),
    ensures
        nested_match(word_at(s, i, rule), s, i),
{
    if i < s.len() {
        lemma_ident_end(s, i + 1);
    }
}

proof fn lemma_pat_nested(s: Seq<u8>, i: int)
    requires
        0 <= i <= s.len(),
    ensures
        nested_match(pat_at(s, i), s, i),
    decreases s.len() - i, 0int,
{
    if pat_at(s, i) is Ok {
        lemma_pat_extent(s, i);
        if has_byte(s, i, OPEN_PAREN) {
            lemma_skip_spaces(s, i + 1);
            lemma_pat_items_nested(s, skip_spaces(s, i + 1), Seq::empty(), i + 1);
        } else {
            lemma_word_nested(s, i, Rule::Identifier);
            let name = identifier_at(s, i)->Ok_0.tree;
            assert(seq![name][0] == name);
        }
    }
}

proof fn lemma_pat_items_nested(s: Seq<u8>, i: int, done: Seq<Tree>, from: int)
    requires
        0 <= from <= i <= s.len(),
        row_nested(done, from, i),
    ensures
        pat_items(s, i, done) matches Ok(found) ==> row_nested(found.0, from, found.1) && found.1
            < s.len(),
    decreases s.len() - i, 1int,
{
    if pat_items(s, i, done) is Ok {
        lemma_pat_nested(s, i);
        lemma_pat_extent(s, i);
        let item = pat_at(s, i)->Ok_0;
        lemma_skip_spaces(s, item.next);
        let j = skip_spaces(s, item.next);
        if has_byte(s, j, COMMA) && i < j {
            lemma_skip_spaces(s, j + 1);
            let next = skip_spaces(s, j + 1);
            lemma_row_push(done, item.tree, from, i, next);
            lemma_pat_items_nested(s, next, done.push(item.tree), from);
        } else {
            lemma_row_push(done, item.tree, from, i, j);
        }
    }
}

proof fn lemma_argument_nested(s: Seq<u8>, i: int)
    requires
        0 <= i <= s.len(),
    ensures
        nested_match(argument_at(s, i), s, i),
{
    if argument_at(s, i) is Ok {
        lemma_pat_nested(s, i);
        let pat = pat_at(s, i)->Ok_0;
        lemma_skip_spaces(s, pat.next);
        let colon = skip_spaces(s, pat.next);
        lemma_skip_spaces(s, colon + 1);
        lemma_word_nested(s, skip_spaces(s, colon + 1), Rule::TypeDef);
    }
}

proof fn lemma_argument_items_nested(s: Seq<u8>, i: int, done: Seq<Tree>, from: int)
    requires
        0 <= from <= i <= s.len(),
        row_nested(done, from, i),
    ensures
        argument_items(s, i, done) matches Ok(items) ==> items.len() > 0 && row_nested(
            items,
            from,
            items.last().end,
        ) && items.last().end <= s.len(),
    decreases s.len() - i,
{
    if argument_items(s, i, done) is Ok {
        lemma_argument_nested(s, i);
        lemma_argument_extent(s, i);
        let item = argument_at(s, i)->Ok_0;
        lemma_skip_spaces(s, item.next);
        let j = skip_spaces(s, item.next);
        if has_byte(s, j, COMMA) {
            lemma_skip_spaces(s, j + 1);
            let next = skip_spaces(s, j + 1);
            lemma_row_push(done, item.tree, from, i, next);
            lemma_argument_items_nested(s, next, done.push(item.tree), from);
        } else {
            lemma_row_push(done, item.tree, from, i, item.tree.end);
        }
    }
}

proof fn lemma_generic_items_nested(s: Seq<u8>, i: int, done: Seq<Tree>, from: int)
    requires
        0 <= from <= i <= s.len(),
        row_nested(done, from, i),
    ensures
        generic_items(s, i, done) matches Ok(items) ==> items.len() > 0 && row_nested(
            items,
            from,
            items.last().end,
        ) && items.last().end <= s.len(),
    decreases s.len() - i,
{
    if generic_items(s, i, done) is Ok {
        lemma_word_nested(s, i, Rule::Identifier);
        let item = identifier_at(s, i)->Ok_0;
        lemma_skip_spaces(s, item.next);
        let j = skip_spaces(s, item.next);
        if has_byte(s, j, COMMA) {
            lemma_skip_spaces(s, j + 1);
            let next = skip_spaces(s, j + 1);
            lemma_row_push(done, item.tree, from, i, next);
            lemma_generic_items_nested(s, next, done.push(item.tree), from);
        } else {
            lemma_row_push(done, item.tree, from, i, item.tree.end);
        }
    }
}

proof fn lemma_arguments_nested(s: Seq<u8>, i: int)
    requires
        0 <= i <= s.len(),
    ensures
        nested_match(arguments_at(s, i), s, i),
{
    if arguments_at(s, i) is Ok {
        lemma_skip_spaces(s, i + 1);
        let first = skip_spaces(s, i + 1);
        if starts_pat(s, first) {
            lemma_argument_items_nested(s, first, Seq::empty(), first);
            let items = argument_items(s, first, Seq::empty())->Ok_0;
            lemma_skip_spaces(s, items.last().end);
        }
    }
}

proof fn lemma_generics_nested(s: Seq<u8>, i: int)
    requires
        0 <= i <= s.len(),
    ensures
        nested_match(generics_at(s, i), s, i),
{
    if generics_at(s, i) is Ok {
        lemma_skip_spaces(s, i + 1);
        let first = skip_spaces(s, i + 1);
        lemma_generic_items_nested(s, first, Seq::empty(), first);
        let items = generic_items(s, first, Seq::empty())->Ok_0;
        lemma_skip_spaces(s, items.last().end);
    }
}

proof fn lemma_return_param_nested(s: Seq<u8>, i: int)
    requires
        0 <= i <= s.len(),
    ensures
        nested_match(return_param_at(s, i), s, i),
{
    if return_param_at(s, i) is Ok {
        lemma_skip_spaces(s, i + 2);
        lemma_word_nested(s, skip_spaces(s, i + 2), Rule::TypeDef);
        let ty = word_at(s, skip_spaces(s, i + 2), Rule::TypeDef)->Ok_0.tree;
        assert(seq![ty][0] == ty);
    }
}

proof fn lemma_signature_nested(s: Seq<u8>, i: int, rule: Rule)
    requires
        0 <= i <= s.len(),
    ensures
        nested_match(signature_at(s, i, rule), s, i),
{
    if signature_at(s, i, rule) is Ok {
        lemma_skip_spaces(s, i + 2);
        let name_at = skip_spaces(s, i + 2);
        lemma_word_nested(s, name_at, Rule::Identifier);
        let name = identifier_at(s, name_at)->Ok_0;
        lemma_skip_spaces(s, name.next);
        let clause_at = skip_spaces(s, name.next);
        if has_byte(s, clause_at, OPEN_ANGLE) {
            lemma_generics_nested(s, clause_at);
        }
        let generics = generic_clause(s, clause_at)->Ok_0;
        lemma_skip_spaces(s, generics.next);
        let open = skip_spaces(s, generics.next);
        lemma_arguments_nested(s, open);
        let args = arguments_at(s, open)->Ok_0;
        lemma_skip_spaces(s, args.next);
        let arrow = skip_spaces(s, args.next);
        let tree = signature_at(s, i, rule)->Ok_0.tree;
        assert(spans_nested(generics.tree));
        if has_arrow(s, arrow) {
            lemma_return_param_nested(s, arrow);
            let ret = return_param_at(s, arrow)->Ok_0;
            assert(tree.children =~= seq![name.tree, generics.tree, args.tree, ret.tree]);
        } else {
            assert(tree.children =~= seq![name.tree, generics.tree, args.tree]);
        }
    }
}

/// The tree of a production is nested, and lies between the offset
/// where the production was tried and the end of what it consumed.
pub proof fn lemma_rule_nested(rule: Rule, s: Seq<u8>, i: int)
    requires
        0 <= i <= s.len(),
    ensures
        nested_match(rule_at(rule, s, i), s, i),
{
    match rule {
        Rule::Identifier => lemma_word_nested(s, i, Rule::Identifier),
        Rule::TypeDef => lemma_word_nested(s, i, Rule::TypeDef),
        Rule::Pat => lemma_pat_nested(s, i),
        Rule::Argument => lemma_argument_nested(s, i),
        Rule::Arguments => lemma_arguments_nested(s, i),
        Rule::Generics => lemma_generics_nested(s, i),
        Rule::ReturnParam => lemma_return_param_nested(s, i),
        Rule::Signature => lemma_signature_nested(s, i, Rule::Signature),
        Rule::Function => lemma_signature_nested(s, i, Rule::Function),
        Rule::EndOfInput => {},
    }
}

/// The syntax tree of a text spans ranges of that text: every node lies
/// inside the text and inside its parent, and the children of a node
/// follow one another in the order of the text without overlapping.
pub proof fn lemma_tree_spans_text(rule: Rule, s: Seq<u8>)
    ensures
        parse_text(rule, s) matches Ok(tree) ==> spans_nested(tree) && tree.end <= s.len(),
{
    lemma_skip_spaces(s, 0);
    lemma_rule_nested(rule, s, skip_spaces(s, 0));
}

} // verus!
