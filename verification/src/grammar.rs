//! The grammar of signatures, written as functions from a text and an
//! offset to what a production gives there: a match or a failure.
//!
//! ```text
//! function     = signature
//! signature    = "fn" identifier generics? arguments return_param?
//! generics     = "<" identifier ("," identifier)* ">"
//! arguments    = "(" (argument ("," argument)*)? ")"
//! argument     = pat ":" type_def
//! pat          = identifier | "(" pat ("," pat)* ")"
//! return_param = "->" type_def
//! type_def     = identifier
//! identifier   = (letter | "_") (letter | digit | "_")*
//! ```
//!
//! Whitespace may stand between any two tokens and means nothing. Choices
//! are ordered and repetitions are greedy, so a text has one reading at
//! most. A failure names the offset of the token that fits nowhere and the
//! production that was being matched there.

use vstd::prelude::*;
use crate::error::Failure;
use crate::lexical::{
    has_byte, ident_end, is_ident_start, is_space, lemma_ident_end, lemma_skip_spaces,
    skip_spaces,
    CLOSE_ANGLE, CLOSE_PAREN, COLON, COMMA, HYPHEN, LOWER_F, LOWER_N, OPEN_ANGLE, OPEN_PAREN,
};
use crate::tree::{leaf, Rule, Tree};

verus! {

/// A production that matched: the node it yields and the offset behind the
/// last byte that it consumed.
pub struct Match {
    pub tree: Tree,
    pub next: int,
}

/// The failure of the production `expected` at offset `position`.
pub open spec fn fail(position: int, expected: Rule) -> Result<Match, Failure> {
    Err(Failure { position, expected })
}

/// A name-like token at `i`: its first byte starts an identifier, and it
/// extends over every identifier byte that follows.
pub open spec fn word_at(s: Seq<u8>, i: int, rule: Rule) -> Result<Match, Failure> {
    if 0 <= i < s.len() && is_ident_start(s[i]) {
        Ok(Match { tree: leaf(rule, i, ident_end(s, i + 1)), next: ident_end(s, i + 1) })
    } else {
        fail(i, rule)
    }
}

/// `identifier` at `i`.
pub open spec fn identifier_at(s: Seq<u8>, i: int) -> Result<Match, Failure> {
    word_at(s, i, Rule::Identifier)
}

/// `type_def` at `i`: an identifier under another name.
pub open spec fn type_def_at(s: Seq<u8>, i: int) -> Result<Match, Failure> {
    word_at(s, i, Rule::TypeDef)
}

/// `pat` at `i`: an identifier, or `(`, patterns separated by commas, and `)`.
pub open spec fn pat_at(s: Seq<u8>, i: int) -> Result<Match, Failure>
    decreases s.len() - i, 0int,
{
    if has_byte(s, i, OPEN_PAREN) {
        proof {
            lemma_skip_spaces(s, i + 1);
        }
        match pat_items(s, skip_spaces(s, i + 1), Seq::empty()) {
            Ok((items, close)) => Ok(
                Match {
                    tree: Tree { rule: Rule::Pat, start: i, end: close + 1, children: items },
                    next: close + 1,
                },
            ),
            Err(f) => Err(f),
        }
    } else {
        match identifier_at(s, i) {
            Ok(name) => Ok(
                Match {
                    tree: Tree {
                        rule: Rule::Pat,
                        start: i,
                        end: name.next,
                        children: seq![name.tree],
                    },
                    next: name.next,
                },
            ),
            Err(_) => fail(i, Rule::Pat),
        }
    }
}

/// The patterns inside a tuple pattern from the one at `i` on, behind those
/// in `done`: the whole row and the offset of the closing `)`.
///
/// A pattern that matched is never empty, so the test `i < j` holds of every
/// separator that is found; it is written out to show that the definition ends.
pub open spec fn pat_items(s: Seq<u8>, i: int, done: Seq<Tree>) -> Result<(Seq<Tree>, int), Failure>
    decreases s.len() - i, 1int,
{
    match pat_at(s, i) {
        Err(f) => Err(f),
        Ok(item) => {
            let j = skip_spaces(s, item.next);
            if has_byte(s, j, COMMA) && i < j {
                proof {
                    lemma_skip_spaces(s, j + 1);
                }
                pat_items(s, skip_spaces(s, j + 1), done.push(item.tree))
            } else if has_byte(s, j, CLOSE_PAREN) {
                Ok((done.push(item.tree), j))
            } else {
                Err(Failure { position: j, expected: Rule::Pat })
            }
        },
    }
}

/// True when a pattern can start with the byte at `i`.
pub open spec fn starts_pat(s: Seq<u8>, i: int) -> bool {
    has_byte(s, i, OPEN_PAREN) || (0 <= i < s.len() && is_ident_start(s[i]))
}

/// `argument` at `i`: a pattern, a colon and a type.
pub open spec fn argument_at(s: Seq<u8>, i: int) -> Result<Match, Failure> {
    match pat_at(s, i) {
        Err(f) => Err(f),
        Ok(pat) => {
            let colon = skip_spaces(s, pat.next);
            if has_byte(s, colon, COLON) {
                match type_def_at(s, skip_spaces(s, colon + 1)) {
                    Err(f) => Err(f),
                    Ok(ty) => Ok(
                        Match {
                            tree: Tree {
                                rule: Rule::Argument,
                                start: i,
                                end: ty.next,
                                children: seq![pat.tree, ty.tree],
                            },
                            next: ty.next,
                        },
                    ),
                }
            } else {
                fail(colon, Rule::Argument)
            }
        },
    }
}

/// The arguments from the one at `i` on, separated by commas, behind those
/// in `done`.
pub open spec fn argument_items(s: Seq<u8>, i: int, done: Seq<Tree>) -> Result<Seq<Tree>, Failure>
    decreases s.len() - i,
{
    match argument_at(s, i) {
        Err(f) => Err(f),
        Ok(item) => {
            let j = skip_spaces(s, item.next);
            if has_byte(s, j, COMMA) {
                proof {
                    lemma_argument_extent(s, i);
                    lemma_skip_spaces(s, item.next);
                    lemma_skip_spaces(s, j + 1);
                }
                argument_items(s, skip_spaces(s, j + 1), done.push(item.tree))
            } else {
                Ok(done.push(item.tree))
            }
        },
    }
}

/// `arguments` at `i`: `(`, arguments separated by commas or nothing, and
/// `)`. The node spans what stands between the parentheses, whitespace at
/// either end left out.
pub open spec fn arguments_at(s: Seq<u8>, i: int) -> Result<Match, Failure> {
    let first = skip_spaces(s, i + 1);
    if !has_byte(s, i, OPEN_PAREN) {
        fail(i, Rule::Arguments)
    } else if starts_pat(s, first) {
        match argument_items(s, first, Seq::empty()) {
            Err(f) => Err(f),
            Ok(items) => {
                let close = skip_spaces(s, items.last().end);
                if has_byte(s, close, CLOSE_PAREN) {
                    Ok(
                        Match {
                            tree: Tree {
                                rule: Rule::Arguments,
                                start: first,
                                end: items.last().end,
                                children: items,
                            },
                            next: close + 1,
                        },
                    )
                } else {
                    fail(close, Rule::Arguments)
                }
            },
        }
    } else if has_byte(s, first, CLOSE_PAREN) {
        Ok(Match { tree: leaf(Rule::Arguments, first, first), next: first + 1 })
    } else {
        fail(first, Rule::Arguments)
    }
}

/// The generic parameters from the one at `i` on, separated by commas,
/// behind those in `done`.
pub open spec fn generic_items(s: Seq<u8>, i: int, done: Seq<Tree>) -> Result<Seq<Tree>, Failure>
    decreases s.len() - i,
{
    match identifier_at(s, i) {
        Err(f) => Err(f),
        Ok(item) => {
            let j = skip_spaces(s, item.next);
            if has_byte(s, j, COMMA) {
                proof {
                    lemma_ident_end(s, i + 1);
                    lemma_skip_spaces(s, item.next);
                    lemma_skip_spaces(s, j + 1);
                }
                generic_items(s, skip_spaces(s, j + 1), done.push(item.tree))
            } else {
                Ok(done.push(item.tree))
            }
        },
    }
}

/// `generics` at `i`: `<`, identifiers separated by commas, one at least,
/// and `>`. The node spans the identifiers.
pub open spec fn generics_at(s: Seq<u8>, i: int) -> Result<Match, Failure> {
    if has_byte(s, i, OPEN_ANGLE) {
        match generic_items(s, skip_spaces(s, i + 1), Seq::empty()) {
            Err(f) => Err(f),
            Ok(items) => {
                let close = skip_spaces(s, items.last().end);
                if has_byte(s, close, CLOSE_ANGLE) {
                    Ok(
                        Match {
                            tree: Tree {
                                rule: Rule::Generics,
                                start: items.first().start,
                                end: items.last().end,
                                children: items,
                            },
                            next: close + 1,
                        },
                    )
                } else {
                    fail(close, Rule::Generics)
                }
            },
        }
    } else {
        fail(i, Rule::Generics)
    }
}

/// True when the keyword `fn` stands at `i`.
pub open spec fn has_keyword(s: Seq<u8>, i: int) -> bool {
    has_byte(s, i, LOWER_F) && has_byte(s, i + 1, LOWER_N)
}

/// True when the arrow `->` stands at `i`.
pub open spec fn has_arrow(s: Seq<u8>, i: int) -> bool {
    has_byte(s, i, HYPHEN) && has_byte(s, i + 1, CLOSE_ANGLE)
}

/// `return_param` at `i`: the arrow and a type. The node spans the type.
pub open spec fn return_param_at(s: Seq<u8>, i: int) -> Result<Match, Failure> {
    if has_arrow(s, i) {
        match type_def_at(s, skip_spaces(s, i + 2)) {
            Err(f) => Err(f),
            Ok(ty) => Ok(
                Match {
                    tree: Tree {
                        rule: Rule::ReturnParam,
                        start: ty.tree.start,
                        end: ty.tree.end,
                        children: seq![ty.tree],
                    },
                    next: ty.next,
                },
            ),
        }
    } else {
        fail(i, Rule::ReturnParam)
    }
}

/// The generic parameters of a signature whose name ends before `i`: the
/// clause at `i` where one is opened there, else an empty node at `i`.
pub open spec fn generic_clause(s: Seq<u8>, i: int) -> Result<Match, Failure> {
    if has_byte(s, i, OPEN_ANGLE) {
        generics_at(s, i)
    } else {
        Ok(Match { tree: leaf(Rule::Generics, i, i), next: i })
    }
}

/// `signature` at `i`, under the name `rule`: the keyword `fn`, the name,
/// the generic parameters if a clause is there, the arguments, and the
/// return type if an arrow follows. The children are the name, the generic
/// parameters, the arguments and, where there is one, the return type.
pub open spec fn signature_at(s: Seq<u8>, i: int, rule: Rule) -> Result<Match, Failure> {
    if !has_keyword(s, i) {
        fail(i, rule)
    } else {
        match identifier_at(s, skip_spaces(s, i + 2)) {
            Err(f) => Err(f),
            Ok(name) => match generic_clause(s, skip_spaces(s, name.next)) {
                Err(f) => Err(f),
                Ok(generics) => match arguments_at(s, skip_spaces(s, generics.next)) {
                    Err(f) => Err(f),
                    Ok(args) => {
                        let arrow = skip_spaces(s, args.next);
                        if has_arrow(s, arrow) {
                            match return_param_at(s, arrow) {
                                Err(f) => Err(f),
                                Ok(ret) => Ok(
                                    Match {
                                        tree: Tree {
                                            rule,
                                            start: i,
                                            end: ret.next,
                                            children: seq![
                                                name.tree,
                                                generics.tree,
                                                args.tree,
                                                ret.tree,
                                            ],
                                        },
                                        next: ret.next,
                                    },
                                ),
                            }
                        } else {
                            Ok(
                                Match {
                                    tree: Tree {
                                        rule,
                                        start: i,
                                        end: args.next,
                                        children: seq![name.tree, generics.tree, args.tree],
                                    },
                                    next: args.next,
                                },
                            )
                        }
                    },
                },
            }
        }
    }
}

/// The end of the text at `i`.
pub open spec fn end_at(s: Seq<u8>, i: int) -> Result<Match, Failure> {
    if i == s.len() {
        Ok(Match { tree: leaf(Rule::EndOfInput, i, i), next: i })
    } else {
        fail(i, Rule::EndOfInput)
    }
}

/// The production `rule` at `i`.
pub open spec fn rule_at(rule: Rule, s: Seq<u8>, i: int) -> Result<Match, Failure> {
    match rule {
        Rule::Identifier => identifier_at(s, i),
        Rule::TypeDef => type_def_at(s, i),
        Rule::Pat => pat_at(s, i),
        Rule::Argument => argument_at(s, i),
        Rule::Arguments => arguments_at(s, i),
        Rule::Generics => generics_at(s, i),
        Rule::ReturnParam => return_param_at(s, i),
        Rule::Signature => signature_at(s, i, Rule::Signature),
        Rule::Function => signature_at(s, i, Rule::Function),
        Rule::EndOfInput => end_at(s, i),
    }
}

/// What parsing the whole text `s` as `rule` gives: whitespace may stand
/// before the first token, between tokens and behind the last one, and
/// nothing else may stand beside the production.
pub open spec fn parse_text(rule: Rule, s: Seq<u8>) -> Result<Tree, Failure> {
    match rule_at(rule, s, skip_spaces(s, 0)) {
        Err(f) => Err(f),
        Ok(m) => match end_at(s, skip_spaces(s, m.next)) {
            Err(f) => Err(f),
            Ok(_) => Ok(m.tree),
        },
    }
}

/// A pattern that matched starts at `i`, is not empty and ends inside the text.
pub proof fn lemma_pat_extent(s: Seq<u8>, i: int)
    requires
        pat_at(s, i) is Ok,
    ensures
        0 <= i < pat_at(s, i)->Ok_0.next <= s.len(),
        pat_at(s, i)->Ok_0.tree.rule == Rule::Pat,
        pat_at(s, i)->Ok_0.tree.start == i,
        pat_at(s, i)->Ok_0.tree.end == pat_at(s, i)->Ok_0.next,
        pat_at(s, i)->Ok_0.tree.children.len() > 0,
    decreases s.len() - i, 0int,
{
    if has_byte(s, i, OPEN_PAREN) {
        lemma_skip_spaces(s, i + 1);
        lemma_pat_items_extent(s, skip_spaces(s, i + 1), Seq::empty());
    } else {
        lemma_ident_end(s, i + 1);
    }
}

/// A row of patterns that matched is closed inside the text, behind its
/// start, and holds one pattern at least.
pub proof fn lemma_pat_items_extent(s: Seq<u8>, i: int, done: Seq<Tree>)
    requires
        pat_items(s, i, done) is Ok,
    ensures
        0 <= i < pat_items(s, i, done)->Ok_0.1 < s.len(),
        pat_items(s, i, done)->Ok_0.0.len() > done.len(),
    decreases s.len() - i, 1int,
{
    lemma_pat_extent(s, i);
    let item = pat_at(s, i)->Ok_0;
    lemma_skip_spaces(s, item.next);
    let j = skip_spaces(s, item.next);
    if has_byte(s, j, COMMA) && i < j {
        lemma_skip_spaces(s, j + 1);
        lemma_pat_items_extent(s, skip_spaces(s, j + 1), done.push(item.tree));
    }
}

/// An argument that matched starts at `i`, is not empty and ends inside the text.
pub proof fn lemma_argument_extent(s: Seq<u8>, i: int)
    requires
        argument_at(s, i) is Ok,
    ensures
        0 <= i < argument_at(s, i)->Ok_0.next <= s.len(),
        argument_at(s, i)->Ok_0.tree.end == argument_at(s, i)->Ok_0.next,
        argument_at(s, i)->Ok_0.tree.start == i,
{
    lemma_pat_extent(s, i);
    let pat = pat_at(s, i)->Ok_0;
    lemma_skip_spaces(s, pat.next);
    let colon = skip_spaces(s, pat.next);
    lemma_skip_spaces(s, colon + 1);
    lemma_ident_end(s, skip_spaces(s, colon + 1) + 1);
}

/// True when a token can start at `i`: the offset lies in the text or at
/// its end, and holds no whitespace.
pub open spec fn at_token(s: Seq<u8>, i: int) -> bool {
    0 <= i <= s.len() && (i < s.len() ==> !is_space(s[i]))
}

/// True when what a production gave at `i` lies where it should: a match
/// ends inside the text and not before `i`, a failure points at a token
/// that is not before `i`.
pub open spec fn well_placed(r: Result<Match, Failure>, s: Seq<u8>, i: int) -> bool {
    match r {
        Ok(m) => i <= m.next <= s.len(),
        Err(f) => i <= f.position && at_token(s, f.position),
    }
}

/// The same of a row of items: it holds an item, and the last one ends
/// inside the text, behind `i`.
pub open spec fn row_well_placed(r: Result<Seq<Tree>, Failure>, s: Seq<u8>, i: int) -> bool {
    match r {
        Ok(items) => items.len() > 0 && i < items.last().end <= s.len(),
        Err(f) => i <= f.position && at_token(s, f.position),
    }
}

proof fn lemma_word_placed(s: Seq<u8>, i: int, rule: Rule)
    requires
        at_token(s, i),
    ensures
        well_placed(word_at(s, i, rule), s, i),
        word_at(s, i, rule) matches Ok(m) ==> i < m.next && m.tree.end == m.next,
{
    if i < s.len() {
        lemma_ident_end(s, i + 1);
    }
}

proof fn lemma_pat_placed(s: Seq<u8>, i: int)
    requires
        at_token(s, i),
    ensures
        well_placed(pat_at(s, i), s, i),
    decreases s.len() - i, 0int,
{
    if has_byte(s, i, OPEN_PAREN) {
        lemma_skip_spaces(s, i + 1);
        lemma_pat_items_placed(s, skip_spaces(s, i + 1), Seq::empty());
    } else {
        lemma_word_placed(s, i, Rule::Identifier);
    }
}

proof fn lemma_pat_items_placed(s: Seq<u8>, i: int, done: Seq<Tree>)
    requires
        at_token(s, i),
    ensures
        match pat_items(s, i, done) {
            Ok(found) => i < found.1 < s.len(),
            Err(f) => i <= f.position && at_token(s, f.position),
        },
    decreases s.len() - i, 1int,
{
    lemma_pat_placed(s, i);
    if pat_at(s, i) is Ok {
        lemma_pat_extent(s, i);
        let item = pat_at(s, i)->Ok_0;
        lemma_skip_spaces(s, item.next);
        let j = skip_spaces(s, item.next);
        if has_byte(s, j, COMMA) && i < j {
            lemma_skip_spaces(s, j + 1);
            lemma_pat_items_placed(s, skip_spaces(s, j + 1), done.push(item.tree));
        }
    }
}

proof fn lemma_argument_placed(s: Seq<u8>, i: int)
    requires
        at_token(s, i),
    ensures
        well_placed(argument_at(s, i), s, i),
{
    lemma_pat_placed(s, i);
    if pat_at(s, i) is Ok {
        let pat = pat_at(s, i)->Ok_0;
        lemma_skip_spaces(s, pat.next);
        let colon = skip_spaces(s, pat.next);
        if has_byte(s, colon, COLON) {
            lemma_skip_spaces(s, colon + 1);
            lemma_word_placed(s, skip_spaces(s, colon + 1), Rule::TypeDef);
        }
    }
}

proof fn lemma_argument_items_placed(s: Seq<u8>, i: int, done: Seq<Tree>)
    requires
        at_token(s, i),
    ensures
        row_well_placed(argument_items(s, i, done), s, i),
    decreases s.len() - i,
{
    lemma_argument_placed(s, i);
    if argument_at(s, i) is Ok {
        lemma_argument_extent(s, i);
        let item = argument_at(s, i)->Ok_0;
        lemma_skip_spaces(s, item.next);
        let j = skip_spaces(s, item.next);
        if has_byte(s, j, COMMA) {
            lemma_skip_spaces(s, j + 1);
            lemma_argument_items_placed(s, skip_spaces(s, j + 1), done.push(item.tree));
        }
    }
}

proof fn lemma_arguments_placed(s: Seq<u8>, i: int)
    requires
        at_token(s, i),
    ensures
        well_placed(arguments_at(s, i), s, i),
{
    if has_byte(s, i, OPEN_PAREN) {
        lemma_skip_spaces(s, i + 1);
        let first = skip_spaces(s, i + 1);
        if starts_pat(s, first) {
            lemma_argument_items_placed(s, first, Seq::empty());
            if argument_items(s, first, Seq::empty()) is Ok {
                let items = argument_items(s, first, Seq::empty())->Ok_0;
                lemma_skip_spaces(s, items.last().end);
            }
        }
    }
}

proof fn lemma_generic_items_placed(s: Seq<u8>, i: int, done: Seq<Tree>)
    requires
        at_token(s, i),
    ensures
        row_well_placed(generic_items(s, i, done), s, i),
    decreases s.len() - i,
{
    lemma_word_placed(s, i, Rule::Identifier);
    if identifier_at(s, i) is Ok {
        let item = identifier_at(s, i)->Ok_0;
        lemma_skip_spaces(s, item.next);
        let j = skip_spaces(s, item.next);
        if has_byte(s, j, COMMA) {
            lemma_skip_spaces(s, j + 1);
            lemma_generic_items_placed(s, skip_spaces(s, j + 1), done.push(item.tree));
        }
    }
}

proof fn lemma_generics_placed(s: Seq<u8>, i: int)
    requires
        at_token(s, i),
    ensures
        well_placed(generics_at(s, i), s, i),
{
    if has_byte(s, i, OPEN_ANGLE) {
        lemma_skip_spaces(s, i + 1);
        let first = skip_spaces(s, i + 1);
        lemma_generic_items_placed(s, first, Seq::empty());
        if generic_items(s, first, Seq::empty()) is Ok {
            let items = generic_items(s, first, Seq::empty())->Ok_0;
            lemma_skip_spaces(s, items.last().end);
        }
    }
}

proof fn lemma_return_param_placed(s: Seq<u8>, i: int)
    requires
        at_token(s, i),
    ensures
        well_placed(return_param_at(s, i), s, i),
{
    if has_arrow(s, i) {
        lemma_skip_spaces(s, i + 2);
        lemma_word_placed(s, skip_spaces(s, i + 2), Rule::TypeDef);
    }
}

proof fn lemma_signature_placed(s: Seq<u8>, i: int, rule: Rule)
    requires
        at_token(s, i),
    ensures
        well_placed(signature_at(s, i, rule), s, i),
{
    if has_keyword(s, i) {
        lemma_skip_spaces(s, i + 2);
        let name_at = skip_spaces(s, i + 2);
        lemma_word_placed(s, name_at, Rule::Identifier);
        if identifier_at(s, name_at) is Ok {
            let name = identifier_at(s, name_at)->Ok_0;
            lemma_skip_spaces(s, name.next);
            let clause_at = skip_spaces(s, name.next);
            lemma_generics_placed(s, clause_at);
            if generic_clause(s, clause_at) is Ok {
                let generics = generic_clause(s, clause_at)->Ok_0;
                lemma_skip_spaces(s, generics.next);
                let open = skip_spaces(s, generics.next);
                lemma_arguments_placed(s, open);
                if arguments_at(s, open) is Ok {
                    let args = arguments_at(s, open)->Ok_0;
                    lemma_skip_spaces(s, args.next);
                    lemma_return_param_placed(s, skip_spaces(s, args.next));
                }
            }
        }
    }
}

/// Every production lies where it should, wherever a token can start.
pub proof fn lemma_rule_placed(rule: Rule, s: Seq<u8>, i: int)
    requires
        at_token(s, i),
    ensures
        well_placed(rule_at(rule, s, i), s, i),
{
    match rule {
        Rule::Identifier => lemma_word_placed(s, i, Rule::Identifier),
        Rule::TypeDef => lemma_word_placed(s, i, Rule::TypeDef),
        Rule::Pat => lemma_pat_placed(s, i),
        Rule::Argument => lemma_argument_placed(s, i),
        Rule::Arguments => lemma_arguments_placed(s, i),
        Rule::Generics => lemma_generics_placed(s, i),
        Rule::ReturnParam => lemma_return_param_placed(s, i),
        Rule::Signature => lemma_signature_placed(s, i, Rule::Signature),
        Rule::Function => lemma_signature_placed(s, i, Rule::Function),
        Rule::EndOfInput => {},
    }
}

/// A text is taken whole or not at all. Where it is accepted, the
/// production matched behind leading whitespace and only whitespace
/// follows it. Where it is rejected, the failure points into the text or
/// at its end, at the first byte of a token and never at whitespace.
pub proof fn lemma_whole_text_or_failure(rule: Rule, s: Seq<u8>)
    ensures
        match parse_text(rule, s) {
            Ok(tree) => {
                let m = rule_at(rule, s, skip_spaces(s, 0));
                &&& m == Ok::<Match, Failure>(Match { tree, next: m->Ok_0.next })
                &&& 0 <= m->Ok_0.next <= s.len()
                &&& forall|k: int| 0 <= k < skip_spaces(s, 0) ==> is_space(#[trigger] s[k])
                &&& forall|k: int| m->Ok_0.next <= k < s.len() ==> is_space(#[trigger] s[k])
            },
            Err(f) => at_token(s, f.position),
        },
{
    lemma_skip_spaces(s, 0);
    lemma_rule_placed(rule, s, skip_spaces(s, 0));
    if rule_at(rule, s, skip_spaces(s, 0)) is Ok {
        let m = rule_at(rule, s, skip_spaces(s, 0))->Ok_0;
        lemma_skip_spaces(s, m.next);
    }
}

} // verus!
