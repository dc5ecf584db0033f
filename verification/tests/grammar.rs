use constexpr_macros::error::GrammarError;
use constexpr_macros::parser::TemplateFn;
use constexpr_macros::tree::{Node, Rule};

fn leaf(rule: Rule, start: usize, end: usize) -> Node {
    Node::new(rule, start, end, vec![])
}

fn pat_of_name(start: usize, end: usize) -> Node {
    Node::new(Rule::Pat, start, end, vec![leaf(Rule::Identifier, start, end)])
}

fn argument_node(start: usize, colon_side: (usize, usize), type_side: (usize, usize)) -> Node {
    Node::new(
        Rule::Argument,
        start,
        type_side.1,
        vec![
            pat_of_name(colon_side.0, colon_side.1),
            leaf(Rule::TypeDef, type_side.0, type_side.1),
        ],
    )
}

#[test]
fn identifier_simple() {
    assert_eq!(
        TemplateFn::parse(Rule::Identifier, "name"),
        Ok(leaf(Rule::Identifier, 0, 4))
    );
}

#[test]
fn identifier_with_seperator() {
    assert_eq!(
        TemplateFn::parse(Rule::Identifier, "other_name"),
        Ok(leaf(Rule::Identifier, 0, 10))
    );
}

#[test]
fn type_def_simple() {
    assert_eq!(
        TemplateFn::parse(Rule::TypeDef, "u32"),
        Ok(leaf(Rule::TypeDef, 0, 3))
    );
}

#[test]
fn pat_simple() {
    assert_eq!(
        TemplateFn::parse(Rule::Pat, "var_name"),
        Ok(Node::new(
            Rule::Pat,
            0,
            8,
            vec![leaf(Rule::Identifier, 0, 8)]
        ))
    );
}

#[test]
fn pat_tuple() {
    assert_eq!(
        TemplateFn::parse(Rule::Pat, "(tuple, other)"),
        Ok(Node::new(
            Rule::Pat,
            0,
            14,
            vec![
                Node::new(Rule::Pat, 1, 6, vec![leaf(Rule::Identifier, 1, 6)]),
                Node::new(Rule::Pat, 8, 13, vec![leaf(Rule::Identifier, 8, 13)]),
            ]
        ))
    );
}

#[test]
fn argument() {
    assert_eq!(
        TemplateFn::parse(Rule::Argument, "ident: Type"),
        Ok(Node::new(
            Rule::Argument,
            0,
            11,
            vec![
                Node::new(Rule::Pat, 0, 5, vec![leaf(Rule::Identifier, 0, 5)]),
                leaf(Rule::TypeDef, 7, 11),
            ]
        ))
    );
}

#[test]
fn signature_simple() {
    assert_eq!(
        TemplateFn::parse(Rule::Signature, "fn my_generic<T>(tuple: T)"),
        Ok(Node::new(
            Rule::Signature,
            0,
            26,
            vec![
                leaf(Rule::Identifier, 3, 13),
                Node::new(Rule::Generics, 14, 15, vec![leaf(Rule::Identifier, 14, 15)]),
                Node::new(
                    Rule::Arguments,
                    17,
                    25,
                    vec![Node::new(
                        Rule::Argument,
                        17,
                        25,
                        vec![
                            Node::new(Rule::Pat, 17, 22, vec![leaf(Rule::Identifier, 17, 22)]),
                            leaf(Rule::TypeDef, 24, 25),
                        ]
                    )]
                ),
            ]
        ))
    );
}

#[test]
fn signature_multiple() {
    assert_eq!(
        TemplateFn::parse(Rule::Signature, "fn my_generic<T, X>(tuple: T, other:Y)"),
        Ok(Node::new(
            Rule::Signature,
            0,
            38,
            vec![
                leaf(Rule::Identifier, 3, 13),
                Node::new(
                    Rule::Generics,
                    14,
                    18,
                    vec![leaf(Rule::Identifier, 14, 15), leaf(Rule::Identifier, 17, 18)]
                ),
                Node::new(
                    Rule::Arguments,
                    20,
                    37,
                    vec![
                        Node::new(
                            Rule::Argument,
                            20,
                            28,
                            vec![
                                Node::new(Rule::Pat, 20, 25, vec![leaf(Rule::Identifier, 20, 25)]),
                                leaf(Rule::TypeDef, 27, 28),
                            ]
                        ),
                        Node::new(
                            Rule::Argument,
                            30,
                            37,
                            vec![
                                Node::new(Rule::Pat, 30, 35, vec![leaf(Rule::Identifier, 30, 35)]),
                                leaf(Rule::TypeDef, 36, 37),
                            ]
                        ),
                    ]
                ),
            ]
        ))
    );
}

#[test]
fn function_has_the_children_of_a_signature() {
    assert_eq!(
        TemplateFn::parse(Rule::Function, "fn f(x: u8) -> u16"),
        Ok(Node::new(
            Rule::Function,
            0,
            18,
            vec![
                leaf(Rule::Identifier, 3, 4),
                leaf(Rule::Generics, 4, 4),
                Node::new(Rule::Arguments, 5, 10, vec![argument_node(5, (5, 6), (8, 10))]),
                Node::new(Rule::ReturnParam, 15, 18, vec![leaf(Rule::TypeDef, 15, 18)]),
            ]
        ))
    );
}

#[test]
fn empty_arguments_give_an_empty_node() {
    assert_eq!(
        TemplateFn::parse(Rule::Function, "fn f()"),
        Ok(Node::new(
            Rule::Function,
            0,
            6,
            vec![
                leaf(Rule::Identifier, 3, 4),
                leaf(Rule::Generics, 4, 4),
                leaf(Rule::Arguments, 5, 5),
            ]
        ))
    );
    assert_eq!(
        TemplateFn::parse(Rule::Arguments, "( )"),
        Ok(leaf(Rule::Arguments, 2, 2))
    );
}

#[test]
fn whitespace_between_tokens_is_skipped() {
    assert_eq!(
        TemplateFn::parse(Rule::Function, " fn\tf < T >\n( x : T )\r\n"),
        Ok(Node::new(
            Rule::Function,
            1,
            21,
            vec![
                leaf(Rule::Identifier, 4, 5),
                Node::new(Rule::Generics, 8, 9, vec![leaf(Rule::Identifier, 8, 9)]),
                Node::new(Rule::Arguments, 14, 19, vec![argument_node(14, (14, 15), (18, 19))]),
            ]
        ))
    );
}

#[test]
fn nested_tuple_pattern() {
    assert_eq!(
        TemplateFn::parse(Rule::Pat, "((a), b)"),
        Ok(Node::new(
            Rule::Pat,
            0,
            8,
            vec![
                Node::new(Rule::Pat, 1, 4, vec![pat_of_name(2, 3)]),
                pat_of_name(6, 7),
            ]
        ))
    );
}

#[test]
fn generics_and_return_param_alone() {
    assert_eq!(
        TemplateFn::parse(Rule::Generics, "<A,B>"),
        Ok(Node::new(
            Rule::Generics,
            1,
            4,
            vec![leaf(Rule::Identifier, 1, 2), leaf(Rule::Identifier, 3, 4)]
        ))
    );
    assert_eq!(
        TemplateFn::parse(Rule::ReturnParam, "-> u32"),
        Ok(Node::new(Rule::ReturnParam, 3, 6, vec![leaf(Rule::TypeDef, 3, 6)]))
    );
    assert_eq!(
        TemplateFn::parse(Rule::EndOfInput, "  "),
        Ok(leaf(Rule::EndOfInput, 2, 2))
    );
}

fn error(position: usize, expected: Rule) -> Result<Node, GrammarError> {
    Err(GrammarError { position, expected })
}

#[test]
fn missing_keyword_is_rejected_at_the_start() {
    assert_eq!(
        TemplateFn::parse(Rule::Function, "my_generic<T>(tuple: T)"),
        error(0, Rule::Function)
    );
    assert_eq!(TemplateFn::parse(Rule::Function, ""), error(0, Rule::Function));
    assert_eq!(TemplateFn::parse(Rule::Signature, "  f()"), error(2, Rule::Signature));
}

#[test]
fn unclosed_generic_clause_is_rejected() {
    assert_eq!(
        TemplateFn::parse(Rule::Function, "fn f<T(x: T)"),
        error(6, Rule::Generics)
    );
    assert_eq!(TemplateFn::parse(Rule::Function, "fn f<T"), error(6, Rule::Generics));
    assert_eq!(TemplateFn::parse(Rule::Function, "fn f<>()"), error(5, Rule::Identifier));
    assert_eq!(TemplateFn::parse(Rule::Function, "fn f<T,>()"), error(7, Rule::Identifier));
}

#[test]
fn each_production_names_itself_where_it_fails() {
    assert_eq!(TemplateFn::parse(Rule::Function, "fn (x: T)"), error(3, Rule::Identifier));
    assert_eq!(TemplateFn::parse(Rule::Function, "fn f x"), error(5, Rule::Arguments));
    assert_eq!(TemplateFn::parse(Rule::Function, "fn f(1)"), error(5, Rule::Arguments));
    assert_eq!(TemplateFn::parse(Rule::Function, "fn f(x T)"), error(7, Rule::Argument));
    assert_eq!(TemplateFn::parse(Rule::Function, "fn f(x: )"), error(8, Rule::TypeDef));
    assert_eq!(TemplateFn::parse(Rule::Function, "fn f(x: T,)"), error(10, Rule::Pat));
    assert_eq!(TemplateFn::parse(Rule::Function, "fn f(x: T y)"), error(10, Rule::Arguments));
    assert_eq!(TemplateFn::parse(Rule::Function, "fn f((a b): T)"), error(8, Rule::Pat));
    assert_eq!(TemplateFn::parse(Rule::Function, "fn f(x: T"), error(9, Rule::Arguments));
    assert_eq!(TemplateFn::parse(Rule::Function, "fn f() ->"), error(9, Rule::TypeDef));
    assert_eq!(TemplateFn::parse(Rule::Function, "fn f() -> u8 {"), error(13, Rule::EndOfInput));
    assert_eq!(TemplateFn::parse(Rule::Function, "fn f() - > u8"), error(7, Rule::EndOfInput));
    assert_eq!(TemplateFn::parse(Rule::ReturnParam, "u32"), error(0, Rule::ReturnParam));
    assert_eq!(TemplateFn::parse(Rule::Generics, "T"), error(0, Rule::Generics));
    assert_eq!(TemplateFn::parse(Rule::Pat, "9"), error(0, Rule::Pat));
    assert_eq!(TemplateFn::parse(Rule::EndOfInput, " x"), error(1, Rule::EndOfInput));
}

#[test]
fn type_with_parameters_is_not_a_type_def() {
    assert_eq!(TemplateFn::parse(Rule::TypeDef, "Map<T, X>"), error(3, Rule::EndOfInput));
}

#[test]
fn identifier_rules() {
    assert_eq!(TemplateFn::parse(Rule::Identifier, "_x9"), Ok(leaf(Rule::Identifier, 0, 3)));
    assert_eq!(TemplateFn::parse(Rule::Identifier, "9x"), error(0, Rule::Identifier));
    assert_eq!(TemplateFn::parse(Rule::Identifier, "a-b"), error(1, Rule::EndOfInput));
    assert_eq!(TemplateFn::parse(Rule::Identifier, "na\u{ef}ve"), error(2, Rule::EndOfInput));
    assert_eq!(TemplateFn::parse(Rule::Identifier, "\u{e9}"), error(0, Rule::Identifier));
}

#[test]
fn keyword_needs_no_space_behind_it() {
    assert_eq!(
        TemplateFn::parse(Rule::Function, "fnf()"),
        Ok(Node::new(
            Rule::Function,
            0,
            5,
            vec![
                leaf(Rule::Identifier, 2, 3),
                leaf(Rule::Generics, 3, 3),
                leaf(Rule::Arguments, 4, 4),
            ]
        ))
    );
}
