use constexpr_macros::error::GrammarError;
use constexpr_macros::extract::{extract, leading_node, node_text, parse_signature};
use constexpr_macros::model::{Argument, ReturnType};
use constexpr_macros::parser::TemplateFn;
use constexpr_macros::tree::{Node, Rule};

#[test]
fn test_parse_full_signature() {
    let input = "fn my_generic<T>(tuple: T)";
    let output = ReturnType {
        macro_name: "my_generic",
        generics: vec!["T"].into_iter().collect(),
        return_param: None,
        args: vec![Argument {
            name: "tuple",
            type_def: "T",
        }],
    };
    assert_eq!(parse_signature(input), Ok(output));
}

#[test]
fn test_generate_closure() {
    let input = "fn my_generic<T>(tuple: T, other:u32) -> u32";
    let output = "|tuple:_,other:u32,|->u32";

    assert_eq!(parse_signature(input).unwrap().to_closure_signature(), output);
}

#[test]
fn test_generate_macro() {
    let input = "fn my_generic<T>(tuple: T, other:u32) -> u32";
    let output = "$tuple:expr,$other:expr";

    assert_eq!(parse_signature(input).unwrap().to_macro_signature(), output);
}

#[test]
fn test_generate_binding() {
    let input = "fn my_generic<T>(tuple: T, other:u32) -> u32";
    let output = "let tuple=$tuple;let other=$other;";

    assert_eq!(parse_signature(input).unwrap().to_binding(), output);
}

#[test]
fn zero_arguments() {
    let model = parse_signature("fn f()").unwrap();
    assert_eq!(model.macro_name(), "f");
    assert!(model.generics.is_empty());
    assert!(model.args.is_empty());
    assert_eq!(model.return_param, None);
    assert_eq!(model.to_macro_signature(), "");
    assert_eq!(model.to_binding(), "");
    assert_eq!(model.to_closure_signature(), "||");
}

#[test]
fn one_argument_has_no_comma() {
    let model = parse_signature("fn f(x: u8)").unwrap();
    assert_eq!(model.to_macro_signature(), "$x:expr");
    assert_eq!(model.to_binding(), "let x=$x;");
    assert_eq!(model.to_closure_signature(), "|x:u8,|");
}

#[test]
fn three_arguments_keep_their_order() {
    let model = parse_signature("fn f(c: u8, a: u16, b: u32)").unwrap();
    assert_eq!(model.to_macro_signature(), "$c:expr,$a:expr,$b:expr");
    assert_eq!(model.to_binding(), "let c=$c;let a=$a;let b=$b;");
    assert_eq!(model.to_closure_signature(), "|c:u8,a:u16,b:u32,|");
}

#[test]
fn generic_return_type_is_left_out_of_the_closure() {
    let model = parse_signature("fn f<T, R>(x: T, y: u8) -> R").unwrap();
    assert_eq!(model.return_param, Some("R"));
    assert_eq!(model.to_closure_signature(), "|x:_,y:u8,|");
    let model = parse_signature("fn f<T>(x: T) -> String").unwrap();
    assert_eq!(model.to_closure_signature(), "|x:_,|->String");
}

#[test]
fn name_and_generics_come_from_the_text() {
    let model = parse_signature("fn  get_val <A ,B, C> ( )").unwrap();
    assert_eq!(model.macro_name(), "get_val");
    assert_eq!(model.generics, vec!["A", "B", "C"]);
    let model = parse_signature("fn get_val()").unwrap();
    assert_eq!(model.macro_name(), "get_val");
    assert_eq!(model.generics, Vec::<&str>::new());
}

#[test]
fn repeated_generic_is_listed_once() {
    let model = parse_signature("fn f<T, U, T>()").unwrap();
    assert_eq!(model.generics, vec!["T", "U"]);
}

#[test]
fn generics_compare_as_sets() {
    let left = parse_signature("fn f<A, B>(x: A)").unwrap();
    let right = parse_signature("fn f<B, A, B>(x: A)").unwrap();
    assert_eq!(left, right);
    let other = parse_signature("fn f<A>(x: A)").unwrap();
    assert_ne!(left, other);
    assert_ne!(other, left);
    assert_ne!(left, parse_signature("fn g<A, B>(x: A)").unwrap());
    assert_ne!(left, parse_signature("fn f<A, B>(x: B)").unwrap());
    assert_ne!(left, parse_signature("fn f<A, B>(y: A)").unwrap());
    assert_ne!(left, parse_signature("fn f<A, B>(x: A, y: A)").unwrap());
    assert_ne!(left, parse_signature("fn f<A, B>(x: A) -> A").unwrap());
    assert_ne!(
        parse_signature("fn f() -> A").unwrap(),
        parse_signature("fn f() -> B").unwrap()
    );
}

#[test]
fn tuple_pattern_is_named_by_its_first_identifier() {
    let model = parse_signature("fn f((a, b): T, ((c), d): U)").unwrap();
    assert_eq!(
        model.args,
        vec![
            Argument { name: "a", type_def: "T" },
            Argument { name: "c", type_def: "U" },
        ]
    );
    assert_eq!(model.to_binding(), "let a=$a;let c=$c;");
}

#[test]
fn malformed_signatures_are_errors() {
    assert_eq!(
        parse_signature("my_generic<T>(tuple: T)"),
        Err(GrammarError { position: 0, expected: Rule::Function })
    );
    assert_eq!(
        parse_signature("fn my_generic<T(tuple: T)"),
        Err(GrammarError { position: 15, expected: Rule::Generics })
    );
    assert_eq!(
        parse_signature("fn f() {"),
        Err(GrammarError { position: 7, expected: Rule::EndOfInput })
    );
}

#[test]
fn renderers_give_the_same_text_again() {
    let model = parse_signature("fn my_generic<T>(tuple: T, other:u32) -> u32").unwrap();
    assert_eq!(model.to_macro_signature(), model.to_macro_signature());
    assert_eq!(model.to_binding(), model.to_binding());
    assert_eq!(model.to_closure_signature(), model.to_closure_signature());
}

#[test]
fn extract_reads_the_tree_of_a_function() {
    let input = "fn h<K>(key: K) -> bool";
    let tree = TemplateFn::parse(Rule::Function, input).unwrap();
    let model = extract(input, &tree);
    assert_eq!(model, parse_signature(input).unwrap());
    assert_eq!(model.macro_name(), "h");
    assert_eq!(model.generics, vec!["K"]);
    assert_eq!(model.args, vec![Argument { name: "key", type_def: "K" }]);
    assert_eq!(model.return_param, Some("bool"));
}

#[test]
fn written_signature_is_read_back() {
    let output = ReturnType {
        macro_name: "name",
        generics: vec!["A", "B"],
        args: vec![
            Argument { name: "x", type_def: "A" },
            Argument { name: "y", type_def: "u8" },
        ],
        return_param: Some("B"),
    };
    assert_eq!(parse_signature("fn name<A,B>(x:A,y:u8)->B"), Ok(output));
    let output = ReturnType {
        macro_name: "_",
        generics: vec![],
        args: vec![],
        return_param: None,
    };
    assert_eq!(parse_signature("fn _()"), Ok(output));
}

#[test]
fn placeholder_stands_for_every_generic_type() {
    let model = parse_signature("fn f<A, B>(a: A, n: u8, b: B, m: A)").unwrap();
    assert_eq!(model.to_closure_signature(), "|a:_,n:u8,b:_,m:_,|");
}

#[test]
fn first_identifier_of_a_pattern() {
    let input = "((a), b)";
    let pat = TemplateFn::parse(Rule::Pat, input).unwrap();
    let name = leading_node(&pat);
    assert_eq!(*name, Node::new(Rule::Identifier, 2, 3, vec![]));
    assert_eq!(node_text(input, name), "a");
    let input = " plain ";
    let pat = TemplateFn::parse(Rule::Pat, input).unwrap();
    let name = leading_node(&pat);
    assert_eq!(*name, Node::new(Rule::Identifier, 1, 6, vec![]));
    assert_eq!(node_text(input, name), "plain");
    let leaf = Node::new(Rule::TypeDef, 0, 1, vec![]);
    assert_eq!(*leading_node(&leaf), leaf);
}
