//! Lexer and shunting-yard expression builder for a small expression language.
//!
//! `tokenreader` turns source text into tokens in one pass of a character
//! state machine; `rpntreebuilder` turns the tokens of one expression into
//! postfix order; `treebuilder` splits a token sequence into expressions at
//! newlines and builds each. `lexer_proofs` holds what is proved of the lexer
//! as a whole.
pub mod chars;
pub mod token;
pub mod tokenreader;
pub mod lexer_proofs;
pub mod node;
pub mod rpntreebuilder;
pub mod treebuilder;
pub mod logger;
