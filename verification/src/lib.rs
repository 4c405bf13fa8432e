//! An S-expression parsing library: a tokenizer, an atom classifier, a
//! recursive-descent structural parser, and a debug printer for the resulting
//! tree, with the behaviour of each stated as a contract over sequence models.

pub mod atom;
pub mod laws;
pub mod parser;
pub mod render;
pub mod token;
pub mod tree;

pub use atom::Atom;
pub use atom::parse_atom;
pub use parser::find_matching_paren;
pub use parser::parse_sexpr;
pub use parser::parse_tokens;
pub use token::Token;
pub use token::tokenize;
pub use tree::Node;
pub use tree::SexprSyntaxError;
