//! A line-oriented Turtle/TriG-style RDF parser. A character-level lexer
//! turns one line of text, together with carried cross-line state, into an
//! ordered sequence of lexemes; a token-level parser folds those lexemes,
//! together with carried document state — base IRI, prefix table, pending
//! subject — into resolved subject-predicate-object triples. Both sides are
//! specified by functional models over character sequences and proved to
//! follow them; reading lines and reporting diagnostics belong to the
//! driver around the library.

pub mod lexer;
pub mod parser;
pub mod text;
pub mod trig_parser;
