use constexpr_macros::error::{decimal_string, GrammarError};
use constexpr_macros::parser::TemplateFn;
use constexpr_macros::template::{find_brace, template_impl, TemplateError};
use constexpr_macros::tree::Rule;

#[test]
fn assert_display() {
    let input = "fn print_some<T>(var:T) -> String {\n        format!(\"{}\", var)\n    }";
    let expanded = template_impl(input).unwrap();
    assert_eq!(
        expanded,
        "macro_rules! print_some {($var:expr) =>{ { let var=$var; {\n        format!(\"{}\", var)\n    } } } }"
    );
    // What the generated macro does with the argument 12: bind it, then run the body.
    let applied = {
        let var = 12;
        {
            format!("{}", var)
        }
    };
    let x = format!("{}", 12);
    assert_eq!(applied, x)
}

#[test]
fn template_of_two_arguments() {
    assert_eq!(
        template_impl("fn add<T>(a: T, b: T) -> T { a + b }"),
        Ok(String::from(
            "macro_rules! add {($a:expr,$b:expr) =>{ { let a=$a;let b=$b; { a + b } } } }"
        ))
    );
}

#[test]
fn template_without_arguments() {
    assert_eq!(
        template_impl("fn one() -> u8 {1}"),
        Ok(String::from("macro_rules! one {() =>{ {  {1} } } }"))
    );
}

#[test]
fn template_body_starts_at_the_first_brace() {
    assert_eq!(
        template_impl("fn f(x: u8) { if x > 0 { x } else { 0 } }"),
        Ok(String::from(
            "macro_rules! f {($x:expr) =>{ { let x=$x; { if x > 0 { x } else { 0 } } } } }"
        ))
    );
    assert_eq!(find_brace("ab{c{".as_bytes()), 2);
    assert_eq!(find_brace("abc".as_bytes()), 3);
    assert_eq!(find_brace("".as_bytes()), 0);
}

#[test]
fn template_body_may_hold_any_text() {
    assert_eq!(
        template_impl("fn f() { \"na\u{ef}ve \u{1f600}\" }"),
        Ok(String::from(
            "macro_rules! f {() =>{ {  { \"na\u{ef}ve \u{1f600}\" } } } }"
        ))
    );
}

#[test]
fn template_without_body_is_an_error() {
    assert_eq!(template_impl("fn f(x: u8)"), Err(TemplateError::MissingBody));
    assert_eq!(template_impl(""), Err(TemplateError::MissingBody));
}

#[test]
fn template_with_a_bad_signature_is_an_error() {
    assert_eq!(
        template_impl("f(x: u8) { x }"),
        Err(TemplateError::Grammar(GrammarError { position: 0, expected: Rule::Function }))
    );
    assert_eq!(
        template_impl("fn f<T(x: T) { x }"),
        Err(TemplateError::Grammar(GrammarError { position: 6, expected: Rule::Generics }))
    );
    assert_eq!(
        template_impl("{ x }"),
        Err(TemplateError::Grammar(GrammarError { position: 0, expected: Rule::Function }))
    );
}

#[test]
fn error_says_what_was_expected_and_where() {
    let error = GrammarError { position: 15, expected: Rule::Generics };
    assert_eq!(error.message(), "expected generics at position 15");
    let error = GrammarError { position: 0, expected: Rule::Function };
    assert_eq!(error.message(), "expected function at position 0");
    let error = GrammarError { position: 7, expected: Rule::EndOfInput };
    assert_eq!(error.message(), "expected end of input at position 7");
}

#[test]
fn error_says_what_was_found() {
    let input = "fn f<T(x: T)";
    let error = TemplateFn::parse(Rule::Function, input).unwrap_err();
    assert_eq!(error.describe(input), "expected generics at position 6, found `(`");
    let input = "fn f(x: T";
    let error = TemplateFn::parse(Rule::Function, input).unwrap_err();
    assert_eq!(
        error.describe(input),
        "expected arguments at position 9, found end of input"
    );
    let input = "fn \u{e9}()";
    let error = TemplateFn::parse(Rule::Function, input).unwrap_err();
    assert_eq!(
        error.describe(input),
        "expected identifier at position 3, found a character outside ASCII"
    );
}

#[test]
fn rule_names() {
    assert_eq!(Rule::Identifier.name(), "identifier");
    assert_eq!(Rule::TypeDef.name(), "type_def");
    assert_eq!(Rule::Pat.name(), "pat");
    assert_eq!(Rule::Argument.name(), "argument");
    assert_eq!(Rule::Arguments.name(), "arguments");
    assert_eq!(Rule::Generics.name(), "generics");
    assert_eq!(Rule::ReturnParam.name(), "return_param");
    assert_eq!(Rule::Signature.name(), "signature");
    assert_eq!(Rule::Function.name(), "function");
    assert_eq!(Rule::EndOfInput.name(), "end of input");
}

#[test]
fn decimal_digits() {
    assert_eq!(decimal_string(0), "0");
    assert_eq!(decimal_string(7), "7");
    assert_eq!(decimal_string(10), "10");
    assert_eq!(decimal_string(1234567890), "1234567890");
    assert_eq!(decimal_string(usize::MAX), usize::MAX.to_string());
}
