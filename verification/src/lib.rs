//! Symbolic algebra: expression trees over algebraic structures, their
//! normal forms, and a text syntax for them.
pub mod integer;
pub mod rational;
pub mod op;
pub mod operator_impl;
pub mod ring;
pub mod symbol;
pub mod text;
pub mod monoid;
pub mod monoid_laws;
pub mod group;
pub mod parse_error;
pub mod lexer;
pub mod ast;
pub mod grammar;
pub mod parser;
pub mod syntax;
pub mod monoid_parse;
pub mod monoid_parser;
pub mod group_parse;
pub mod semiring_expr;
pub mod ring_expr;
pub mod ring_parse;
pub mod structure;
pub mod quotient;
pub mod coset;
pub mod dihedral;
pub mod forms;
pub mod forms_laws;
pub mod gf2;
pub mod elementary;
pub mod elementary_parse;
pub mod elementary_rewriter;
pub mod elementary_laws;
pub mod group_laws;
pub mod semiring_laws;
pub mod ring_laws;
