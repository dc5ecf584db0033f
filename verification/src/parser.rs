//! The parser: executable functions that compute, production by
//! production, what the grammar defines.

use vstd::prelude::*;
use vstd::slice::*;
use vstd::string::*;
use crate::error::{Failure, GrammarError};
use crate::grammar::{
    argument_at, argument_items, arguments_at, end_at, generic_clause, generic_items, generics_at,
    has_arrow, has_keyword, parse_text, pat_at, pat_items, return_param_at, rule_at, signature_at,
    word_at, Match,
};
use crate::lexical::{
    byte_at, has_byte, ident_start_byte, skip_identifier, skip_spaces, skip_whitespace,
    CLOSE_ANGLE, CLOSE_PAREN, COLON, COMMA, HYPHEN, LOWER_F, LOWER_N, OPEN_ANGLE, OPEN_PAREN,
};
use crate::tree::{lemma_trees_push, trees, Node, Rule, Tree};

verus! {

/// True when a parser's answer is the one that the grammar gives.
pub open spec fn agrees(r: Result<(Node, usize), GrammarError>, m: Result<Match, Failure>) -> bool {
    match r {
        Ok(found) => m == Ok::<Match, Failure>(Match { tree: found.0@, next: found.1 as int }),
        Err(e) => m == Err::<Match, Failure>(e@),
    }
}

/// True when the answer, if it is a match, ends behind `i` and inside `s`.
pub open spec fn advances(r: Result<(Node, usize), GrammarError>, s: Seq<u8>, i: int) -> bool {
    r matches Ok(found) ==> i < found.1 <= s.len() && found.0.start == i && found.0.end == found.1
}

/// Reads a name-like token at `i` and heads its node with `rule`.
fn parse_word(bytes: &[u8], i: usize, rule: Rule) -> (r: Result<(Node, usize), GrammarError>)
    requires
        i <= bytes@.len(),
    ensures
        agrees(r, word_at(bytes@, i as int, rule)),
        advances(r, bytes@, i as int),
{
    if i < bytes.len() && ident_start_byte(bytes[i]) {
        let end = skip_identifier(bytes, i + 1);
        let node = Node::new(rule, i, end, Vec::new());
        assert(node@.children =~= Seq::empty());
        Ok((node, end))
    } else {
        Err(GrammarError { position: i, expected: rule })
    }
}

/// Reads a pattern at `i`.
fn parse_pat(bytes: &[u8], i: usize) -> (r: Result<(Node, usize), GrammarError>)
    requires
        i <= bytes@.len(),
    ensures
        agrees(r, pat_at(bytes@, i as int)),
        advances(r, bytes@, i as int),
    decreases bytes@.len() - i,
{
    if byte_at(bytes, i, OPEN_PAREN) {
        let mut items: Vec<Node> = Vec::new();
        let mut at: usize = skip_whitespace(bytes, i + 1);
        assert(trees(items@) =~= Seq::empty());
        loop
            invariant
                i < at <= bytes@.len(),
                has_byte(bytes@, i as int, OPEN_PAREN),
                pat_items(bytes@, skip_spaces(bytes@, i + 1), Seq::empty()) == pat_items(
                    bytes@,
                    at as int,
                    trees(items@),
                ),
            decreases bytes@.len() - at,
        {
            match parse_pat(bytes, at) {
                Err(e) => {
                    return Err(e);
                },
                Ok((item, next)) => {
                    proof {
                        lemma_trees_push(items@, item);
                    }
                    items.push(item);
                    let j = skip_whitespace(bytes, next);
                    if byte_at(bytes, j, COMMA) {
                        at = skip_whitespace(bytes, j + 1);
                    } else if byte_at(bytes, j, CLOSE_PAREN) {
                        let node = Node::new(Rule::Pat, i, j + 1, items);
                        return Ok((node, j + 1));
                    } else {
                        return Err(GrammarError { position: j, expected: Rule::Pat });
                    }
                },
            }
        }
    } else {
        match parse_word(bytes, i, Rule::Identifier) {
            Ok((name, next)) => {
                let mut items: Vec<Node> = Vec::new();
                proof {
                    lemma_trees_push(items@, name);
                    assert(trees(items@) =~= Seq::empty());
                    assert(Seq::<Tree>::empty().push(name@) =~= seq![name@]);
                }
                items.push(name);
                Ok((Node::new(Rule::Pat, i, next, items), next))
            },
            Err(_) => Err(GrammarError { position: i, expected: Rule::Pat }),
        }
    }
}

/// Reads an argument at `i`.
fn parse_argument(bytes: &[u8], i: usize) -> (r: Result<(Node, usize), GrammarError>)
    requires
        i <= bytes@.len(),
    ensures
        agrees(r, argument_at(bytes@, i as int)),
        advances(r, bytes@, i as int),
{
    match parse_pat(bytes, i) {
        Err(e) => Err(e),
        Ok((pat, next)) => {
            let colon = skip_whitespace(bytes, next);
            if byte_at(bytes, colon, COLON) {
                match parse_word(bytes, skip_whitespace(bytes, colon + 1), Rule::TypeDef) {
                    Err(e) => Err(e),
                    Ok((ty, end)) => {
                        let mut items: Vec<Node> = Vec::new();
                        proof {
                            assert(trees(items@.push(pat).push(ty)) =~= seq![pat@, ty@]);
                        }
                        items.push(pat);
                        items.push(ty);
                        Ok((Node::new(Rule::Argument, i, end, items), end))
                    },
                }
            } else {
                Err(GrammarError { position: colon, expected: Rule::Argument })
            }
        },
    }
}

/// A row of items separated by commas: the nodes, and the end of the last one.
pub open spec fn row_agrees(
    r: Result<(Vec<Node>, usize), GrammarError>,
    m: Result<Seq<Tree>, Failure>,
) -> bool {
    match r {
        Ok(found) => m == Ok::<Seq<Tree>, Failure>(trees(found.0@)) && found.0@.len() > 0
            && found.0@.last().end == found.1,
        Err(e) => m == Err::<Seq<Tree>, Failure>(e@),
    }
}

/// Reads the arguments from the one at `i` on, as far as commas separate them.
fn parse_argument_items(bytes: &[u8], i: usize) -> (r: Result<(Vec<Node>, usize), GrammarError>)
    requires
        i <= bytes@.len(),
    ensures
        row_agrees(r, argument_items(bytes@, i as int, Seq::empty())),
        r matches Ok(found) ==> i < found.1 <= bytes@.len() && found.0@.first().start == i,
{
    let mut items: Vec<Node> = Vec::new();
    let mut at: usize = i;
    assert(trees(items@) =~= Seq::empty());
    loop
        invariant
            i <= at <= bytes@.len(),
            argument_items(bytes@, i as int, Seq::empty()) == argument_items(
                bytes@,
                at as int,
                trees(items@),
            ),
            items@.len() > 0 ==> items@.first().start == i,
            items@.len() == 0 ==> at == i,
        decreases bytes@.len() - at,
    {
        match parse_argument(bytes, at) {
            Err(e) => {
                return Err(e);
            },
            Ok((item, next)) => {
                proof {
                    lemma_trees_push(items@, item);
                }
                items.push(item);
                let j = skip_whitespace(bytes, next);
                if byte_at(bytes, j, COMMA) {
                    at = skip_whitespace(bytes, j + 1);
                } else {
                    return Ok((items, next));
                }
            },
        }
    }
}

/// Reads the parenthesised list of arguments at `i`.
fn parse_arguments(bytes: &[u8], i: usize) -> (r: Result<(Node, usize), GrammarError>)
    requires
        i <= bytes@.len(),
    ensures
        agrees(r, arguments_at(bytes@, i as int)),
        r matches Ok(found) ==> i < found.1 <= bytes@.len(),
{
    if !byte_at(bytes, i, OPEN_PAREN) {
        return Err(GrammarError { position: i, expected: Rule::Arguments });
    }
    let first = skip_whitespace(bytes, i + 1);
    if byte_at(bytes, first, OPEN_PAREN) || (first < bytes.len() && ident_start_byte(
        bytes[first],
    )) {
        match parse_argument_items(bytes, first) {
            Err(e) => Err(e),
            Ok((items, end)) => {
                let close = skip_whitespace(bytes, end);
                if byte_at(bytes, close, CLOSE_PAREN) {
                    proof {
                        assert(trees(items@).last().end == end);
                    }
                    Ok((Node::new(Rule::Arguments, first, end, items), close + 1))
                } else {
                    Err(GrammarError { position: close, expected: Rule::Arguments })
                }
            },
        }
    } else if byte_at(bytes, first, CLOSE_PAREN) {
        let node = Node::new(Rule::Arguments, first, first, Vec::new());
        assert(node@.children =~= Seq::empty());
        Ok((node, first + 1))
    } else {
        Err(GrammarError { position: first, expected: Rule::Arguments })
    }
}

/// Reads the generic parameters from the one at `i` on, as far as commas
/// separate them.
fn parse_generic_items(bytes: &[u8], i: usize) -> (r: Result<(Vec<Node>, usize), GrammarError>)
    requires
        i <= bytes@.len(),
    ensures
        row_agrees(r, generic_items(bytes@, i as int, Seq::empty())),
        r matches Ok(found) ==> i < found.1 <= bytes@.len() && found.0@.first().start == i,
{
    let mut items: Vec<Node> = Vec::new();
    let mut at: usize = i;
    assert(trees(items@) =~= Seq::empty());
    loop
        invariant
            i <= at <= bytes@.len(),
            generic_items(bytes@, i as int, Seq::empty()) == generic_items(
                bytes@,
                at as int,
                trees(items@),
            ),
            items@.len() > 0 ==> items@.first().start == i,
            items@.len() == 0 ==> at == i,
        decreases bytes@.len() - at,
    {
        match parse_word(bytes, at, Rule::Identifier) {
            Err(e) => {
                return Err(e);
            },
            Ok((item, next)) => {
                proof {
                    lemma_trees_push(items@, item);
                }
                items.push(item);
                let j = skip_whitespace(bytes, next);
                if byte_at(bytes, j, COMMA) {
                    at = skip_whitespace(bytes, j + 1);
                } else {
                    return Ok((items, next));
                }
            },
        }
    }
}

/// Reads the clause of generic parameters at `i`.
fn parse_generics(bytes: &[u8], i: usize) -> (r: Result<(Node, usize), GrammarError>)
    requires
        i <= bytes@.len(),
    ensures
        agrees(r, generics_at(bytes@, i as int)),
        r matches Ok(found) ==> i < found.1 <= bytes@.len(),
{
    if !byte_at(bytes, i, OPEN_ANGLE) {
        return Err(GrammarError { position: i, expected: Rule::Generics });
    }
    let first = skip_whitespace(bytes, i + 1);
    match parse_generic_items(bytes, first) {
        Err(e) => Err(e),
        Ok((items, end)) => {
            let close = skip_whitespace(bytes, end);
            if byte_at(bytes, close, CLOSE_ANGLE) {
                proof {
                    assert(trees(items@).last().end == end);
                    assert(trees(items@).first().start == first);
                }
                Ok((Node::new(Rule::Generics, first, end, items), close + 1))
            } else {
                Err(GrammarError { position: close, expected: Rule::Generics })
            }
        },
    }
}

/// Whether the arrow `->` stands at `i`.
fn arrow_at(bytes: &[u8], i: usize) -> (yes: bool)
    ensures
        yes == has_arrow(bytes@, i as int),
        yes ==> i + 2 <= bytes@.len() && i + 2 <= usize::MAX,
{
    byte_at(bytes, i, HYPHEN) && byte_at(bytes, i + 1, CLOSE_ANGLE)
}

/// Whether the keyword `fn` stands at `i`.
fn keyword_at(bytes: &[u8], i: usize) -> (yes: bool)
    ensures
        yes == has_keyword(bytes@, i as int),
        yes ==> i + 2 <= bytes@.len() && i + 2 <= usize::MAX,
{
    byte_at(bytes, i, LOWER_F) && byte_at(bytes, i + 1, LOWER_N)
}

/// Reads the arrow and the return type at `i`.
fn parse_return_param(bytes: &[u8], i: usize) -> (r: Result<(Node, usize), GrammarError>)
    requires
        i <= bytes@.len(),
    ensures
        agrees(r, return_param_at(bytes@, i as int)),
        r matches Ok(found) ==> i < found.1 <= bytes@.len(),
{
    if !arrow_at(bytes, i) {
        return Err(GrammarError { position: i, expected: Rule::ReturnParam });
    }
    match parse_word(bytes, skip_whitespace(bytes, i + 2), Rule::TypeDef) {
        Err(e) => Err(e),
        Ok((ty, end)) => {
            let start = ty.start;
            let mut items: Vec<Node> = Vec::new();
            proof {
                assert(trees(items@.push(ty)) =~= seq![ty@]);
            }
            items.push(ty);
            Ok((Node::new(Rule::ReturnParam, start, end, items), end))
        },
    }
}

/// Reads the clause of generic parameters at `i` where one is opened
/// there, and gives an empty node where none is.
fn parse_generic_clause(bytes: &[u8], i: usize) -> (r: Result<(Node, usize), GrammarError>)
    requires
        i <= bytes@.len(),
    ensures
        agrees(r, generic_clause(bytes@, i as int)),
        r matches Ok(found) ==> i <= found.1 <= bytes@.len(),
{
    if byte_at(bytes, i, OPEN_ANGLE) {
        parse_generics(bytes, i)
    } else {
        let node = Node::new(Rule::Generics, i, i, Vec::new());
        assert(node@.children =~= Seq::empty());
        Ok((node, i))
    }
}

/// Reads a signature at `i` and heads its node with `rule`.
fn parse_signature(bytes: &[u8], i: usize, rule: Rule) -> (r: Result<(Node, usize), GrammarError>)
    requires
        i <= bytes@.len(),
    ensures
        agrees(r, signature_at(bytes@, i as int, rule)),
        r matches Ok(found) ==> i < found.1 <= bytes@.len(),
{
    if !keyword_at(bytes, i) {
        return Err(GrammarError { position: i, expected: rule });
    }
    let (name, name_end) = match parse_word(
        bytes,
        skip_whitespace(bytes, i + 2),
        Rule::Identifier,
    ) {
        Err(e) => {
            return Err(e);
        },
        Ok(found) => found,
    };
    let (generics, generics_end) = match parse_generic_clause(
        bytes,
        skip_whitespace(bytes, name_end),
    ) {
        Err(e) => {
            return Err(e);
        },
        Ok(found) => found,
    };
    let (args, args_end) = match parse_arguments(bytes, skip_whitespace(bytes, generics_end)) {
        Err(e) => {
            return Err(e);
        },
        Ok(found) => found,
    };
    let arrow = skip_whitespace(bytes, args_end);
    let mut items: Vec<Node> = Vec::new();
    if arrow_at(bytes, arrow) {
        match parse_return_param(bytes, arrow) {
            Err(e) => Err(e),
            Ok((ret, end)) => {
                proof {
                    assert(trees(items@.push(name).push(generics).push(args).push(ret))
                        =~= seq![name@, generics@, args@, ret@]);
                }
                items.push(name);
                items.push(generics);
                items.push(args);
                items.push(ret);
                Ok((Node::new(rule, i, end, items), end))
            },
        }
    } else {
        proof {
            assert(trees(items@.push(name).push(generics).push(args)) =~= seq![
                name@,
                generics@,
                args@,
            ]);
        }
        items.push(name);
        items.push(generics);
        items.push(args);
        Ok((Node::new(rule, i, args_end, items), args_end))
    }
}

/// Tests that the text ends at `i`.
fn parse_end(bytes: &[u8], i: usize) -> (r: Result<(Node, usize), GrammarError>)
    requires
        i <= bytes@.len(),
    ensures
        agrees(r, end_at(bytes@, i as int)),
        r matches Ok(found) ==> found.1 == bytes@.len(),
{
    if i == bytes.len() {
        let node = Node::new(Rule::EndOfInput, i, i, Vec::new());
        assert(node@.children =~= Seq::empty());
        Ok((node, i))
    } else {
        Err(GrammarError { position: i, expected: Rule::EndOfInput })
    }
}

/// Reads the production `rule` at `i`.
fn parse_rule(rule: Rule, bytes: &[u8], i: usize) -> (r: Result<(Node, usize), GrammarError>)
    requires
        i <= bytes@.len(),
    ensures
        agrees(r, rule_at(rule, bytes@, i as int)),
        r matches Ok(found) ==> i <= found.1 <= bytes@.len(),
{
    match rule {
        Rule::Identifier => parse_word(bytes, i, Rule::Identifier),
        Rule::TypeDef => parse_word(bytes, i, Rule::TypeDef),
        Rule::Pat => parse_pat(bytes, i),
        Rule::Argument => parse_argument(bytes, i),
        Rule::Arguments => parse_arguments(bytes, i),
        Rule::Generics => parse_generics(bytes, i),
        Rule::ReturnParam => parse_return_param(bytes, i),
        Rule::Signature => parse_signature(bytes, i, Rule::Signature),
        Rule::Function => parse_signature(bytes, i, Rule::Function),
        Rule::EndOfInput => parse_end(bytes, i),
    }
}

/// True when a parser's answer for a whole text is the one that the grammar gives.
pub open spec fn tree_agrees(r: Result<Node, GrammarError>, m: Result<Tree, Failure>) -> bool {
    match r {
        Ok(node) => m == Ok::<Tree, Failure>(node@),
        Err(e) => m == Err::<Tree, Failure>(e@),
    }
}

/// The parser of the signature grammar.
pub struct TemplateFn;

impl TemplateFn {
    /// Parses the whole of `input` as the production `rule`.
    ///
    /// The answer is the syntax tree that the grammar assigns to the bytes
    /// of `input`, or the failure that it assigns to them: the offset of the
    /// first token that fits nowhere and the production wanted there.
    pub fn parse(rule: Rule, input: &str) -> (r: Result<Node, GrammarError>)
        ensures
            tree_agrees(r, parse_text(rule, input.spec_bytes())),
    {
        let bytes = input.as_bytes();
        match parse_rule(rule, bytes, skip_whitespace(bytes, 0)) {
            Err(e) => Err(e),
            Ok((node, next)) => match parse_end(bytes, skip_whitespace(bytes, next)) {
                Err(e) => Err(e),
                Ok(_) => Ok(node),
            },
        }
    }
}

} // verus!
