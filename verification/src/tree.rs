//! The syntax tree that parsing gives.

use vstd::prelude::*;
use vstd::string::*;

verus! {

/// The productions of the signature grammar.
#[derive(Clone, Copy, Debug, PartialEq, Eq, Hash, Structural)]
pub enum Rule {
    /// A letter or underscore followed by letters, digits and underscores.
    Identifier,
    /// The name of a type: an identifier.
    TypeDef,
    /// An identifier, or a parenthesised list of patterns separated by commas.
    Pat,
    /// A pattern, a colon and a type.
    Argument,
    /// The parenthesised list of arguments, possibly empty.
    Arguments,
    /// The list of generic parameters between `<` and `>`.
    Generics,
    /// The arrow `->` and the type behind it.
    ReturnParam,
    /// `fn`, a name, generic parameters if any, arguments and a return type if any.
    Signature,
    /// The root production: a signature.
    Function,
    /// The end of the text. It heads no node of a tree that another production yields.
    EndOfInput,
}

/// The name of a production, as the grammar writes it.
pub open spec fn rule_name(rule: Rule) -> Seq<char> {
    match rule {
        Rule::Identifier => "identifier"@,
        Rule::TypeDef => "type_def"@,
        Rule::Pat => "pat"@,
        Rule::Argument => "argument"@,
        Rule::Arguments => "arguments"@,
        Rule::Generics => "generics"@,
        Rule::ReturnParam => "return_param"@,
        Rule::Signature => "signature"@,
        Rule::Function => "function"@,
        Rule::EndOfInput => "end of input"@,
    }
}

impl Rule {
    /// The name of the production, as the grammar writes it.
    pub fn name(&self) -> (name: &'static str)
        ensures
            name@ == rule_name(*self),
    {
        match self {
            Rule::Identifier => "identifier",
            Rule::TypeDef => "type_def",
            Rule::Pat => "pat",
            Rule::Argument => "argument",
            Rule::Arguments => "arguments",
            Rule::Generics => "generics",
            Rule::ReturnParam => "return_param",
            Rule::Signature => "signature",
            Rule::Function => "function",
            Rule::EndOfInput => "end of input",
        }
    }
}

/// A node of the syntax tree: the production that matched, the bytes it
/// spans (`start` inclusive, `end` exclusive) and the nodes below it, in
/// the order of the text.
#[derive(Debug, PartialEq, Eq)]
pub struct Node {
    pub rule: Rule,
    pub start: usize,
    pub end: usize,
    pub children: Vec<Node>,
}

/// The mathematical value of a [`Node`].
pub struct Tree {
    pub rule: Rule,
    pub start: int,
    pub end: int,
    pub children: Seq<Tree>,
}

/// The value of a node: its production and span, and the values of its children.
pub open spec fn tree_of(node: Node) -> Tree
    decreases node,
{
    Tree {
        rule: node.rule,
        start: node.start as int,
        end: node.end as int,
        children: Seq::new(
            node.children@.len(),
            |i: int|
                if 0 <= i < node.children@.len() {
                    tree_of(node.children@[i])
                } else {
                    arbitrary()
                },
        ),
    }
}

impl View for Node {
    type V = Tree;

    open spec fn view(&self) -> Tree {
        tree_of(*self)
    }
}

/// The values of a row of nodes.
pub open spec fn trees(nodes: Seq<Node>) -> Seq<Tree> {
    Seq::new(nodes.len(), |i: int| nodes[i]@)
}

/// A tree without children.
pub open spec fn leaf(rule: Rule, start: int, end: int) -> Tree {
    Tree { rule, start, end, children: Seq::empty() }
}

pub proof fn lemma_children_view(node: &Node)
    ensures
        node@.children == trees(node.children@),
        node@.rule == node.rule,
        node@.start == node.start,
        node@.end == node.end,
{
    assert(node@.children =~= trees(node.children@));
}

pub proof fn lemma_trees_push(nodes: Seq<Node>, node: Node)
    ensures
        trees(nodes.push(node)) == trees(nodes).push(node@),
{
    assert(trees(nodes.push(node)) =~= trees(nodes).push(node@));
}

impl Node {
    /// A node with the given production, span and children.
    pub fn new(rule: Rule, start: usize, end: usize, children: Vec<Node>) -> (node: Node)
        ensures
            node.rule == rule,
            node.start == start,
            node.end == end,
            node.children == children,
            node@ == (Tree {
                rule,
                start: start as int,
                end: end as int,
                children: trees(children@),
            }),
    {
        let node = Node { rule, start, end, children };
        proof {
            lemma_children_view(&node);
        }
        node
    }
}

} // verus!
