use constexpr_macros::extract::parse_signature;
use constexpr_macros::model::ReturnType;
use constexpr_macros::parser::TemplateFn;
use constexpr_macros::template::template_impl;
use constexpr_macros::tree::{Node, Rule};

const TOKENS: [&str; 16] = [
    "fn", " ", "\t", "a", "b1", "_", "T", "(", ")", "<", ">", ",", ":", "->", "-", "\u{e9}",
];

const SEEDS: [&[&str]; 8] = [
    &["fn", " ", "a", "(", ")"],
    &["fn", " ", "a", "<", "T", ">", "(", "b1", ":", "T", ")"],
    &["fn", " ", "a", "<", "T", ",", "_", ">", "(", "b1", ":", "T", ",", "a", ":", "_", ")", "->", "T"],
    &["fn", " ", "a", "(", "(", "a", ",", "b1", ")", ":", "T", ")", " ", "->", " ", "b1"],
    &["fn", "a", "(", "(", "(", "a", ")", ")", ":", "T", ")"],
    &[" ", "fn", "\t", "_", " ", "<", " ", "T", " ", ">", " ", "(", " ", ")", " "],
    &["fn", " ", "a", "(", "a", ":", "T", ",", "b1", ":", "T", ",", "_", ":", "T", ")"],
    &["fn", " ", "T", "<", "T", ",", "T", ">", "(", "T", ":", "T", ")", "->", "T"],
];

fn mutations(seed: &[&str]) -> Vec<String> {
    let mut out = vec![seed.concat()];
    for at in 0..=seed.len() {
        for token in TOKENS {
            let mut inserted = seed.to_vec();
            inserted.insert(at, token);
            out.push(inserted.concat());
            if at < seed.len() {
                let mut replaced = seed.to_vec();
                replaced[at] = token;
                out.push(replaced.concat());
            }
        }
        if at < seed.len() {
            let mut removed = seed.to_vec();
            removed.remove(at);
            out.push(removed.concat());
        }
    }
    out
}

fn is_identifier(text: &str) -> bool {
    let mut chars = text.chars();
    match chars.next() {
        Some(first) => {
            (first.is_ascii_alphabetic() || first == '_')
                && chars.all(|c| c.is_ascii_alphanumeric() || c == '_')
        }
        None => false,
    }
}

fn written(model: &ReturnType) -> String {
    let mut out = format!("fn {}", model.macro_name);
    if !model.generics.is_empty() {
        out.push_str(&format!("<{}>", model.generics.join(",")));
    }
    let args: Vec<String> = model
        .args
        .iter()
        .map(|arg| format!("{}:{}", arg.name, arg.type_def))
        .collect();
    out.push_str(&format!("({})", args.join(",")));
    if let Some(type_def) = model.return_param {
        out.push_str(&format!("->{}", type_def));
    }
    out
}

fn check_spans(node: &Node, input: &str) {
    assert!(node.start <= node.end && node.end <= input.len());
    let mut from = node.start;
    for child in &node.children {
        assert!(from <= child.start && child.end <= node.end);
        check_spans(child, input);
        from = child.end;
    }
}

#[test]
fn mutated_signatures_are_read_or_rejected() {
    let mut accepted = 0;
    let mut rejected = 0;
    for seed in SEEDS {
        assert!(parse_signature(&seed.concat()).is_ok());
        for input in mutations(seed) {
            let tree = TemplateFn::parse(Rule::Function, &input);
            match parse_signature(&input) {
                Ok(model) => {
                    accepted += 1;
                    let tree = tree.unwrap();
                    check_spans(&tree, &input);
                    assert!(is_identifier(model.macro_name));
                    assert!(model.generics.iter().all(|name| is_identifier(name)));
                    assert!(model
                        .args
                        .iter()
                        .all(|arg| is_identifier(arg.name) && is_identifier(arg.type_def)));
                    assert!(model.return_param.map_or(true, is_identifier));
                    assert_eq!(model.args.len(), tree.children[2].children.len());
                    assert_eq!(model.return_param.is_some(), tree.children.len() == 4);
                    let again = written(&model);
                    assert_eq!(parse_signature(&again).as_ref(), Ok(&model));
                    let commas = model.args.len().saturating_sub(1);
                    let pattern = model.to_macro_signature();
                    assert_eq!(pattern.matches("$").count(), model.args.len());
                    assert_eq!(pattern.matches(":expr").count(), model.args.len());
                    assert_eq!(pattern.matches(",").count(), commas);
                    assert_eq!(model.to_binding().matches("let ").count(), model.args.len());
                    assert_eq!(model.to_binding().matches(";").count(), model.args.len());
                    let template = format!("{}{{}}", input);
                    assert!(template_impl(&template).is_ok());
                }
                Err(error) => {
                    rejected += 1;
                    assert_eq!(tree, Err(error));
                    assert!(error.position <= input.len());
                    assert!(input.is_char_boundary(error.position));
                    let found = input[error.position..].chars().next();
                    assert!(!matches!(found, Some(' ' | '\t' | '\n' | '\r')));
                    assert!(error.describe(&input).starts_with(&error.message()));
                }
            }
        }
    }
    assert!(accepted > 100);
    assert!(rejected > 1000);
}
