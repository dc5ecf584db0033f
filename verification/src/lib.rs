//! Templates for compile-time dispatch: a function written with generic
//! parameters becomes a macro of the same name.
//!
//! The library parses the signature of such a function with a small
//! grammar ([`parser::TemplateFn`]), reads the signature off the syntax
//! tree ([`extract::parse_signature`]) and renders it to the texts that
//! make up the macro definition ([`model::ReturnType`],
//! [`template::template_impl`]).

pub mod error;
pub mod extract;
pub mod grammar;
pub mod lexical;
pub mod model;
pub mod parser;
pub mod render;
pub mod spans;
pub mod template;
pub mod text;
pub mod tree;
pub mod writing;
