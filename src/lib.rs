// A front end for a small expression language over doubles: a lexer, a
// recursive-descent parser whose operator table grows while it parses, and a
// lowering of the syntax tree into blocks of instructions over mutable cells.
pub mod ast;
pub mod codegen;
pub mod externs;
pub mod lexer;
pub mod parser;
