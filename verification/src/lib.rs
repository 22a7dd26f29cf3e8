//! Grotsky: lexer, parser and bytecode compiler of a small scripting language;
//! the operations of its values that need no arithmetic on numbers; the
//! binary-embedding helpers of its command line tool; and the control state of
//! its virtual machine.

pub mod expr;
pub mod instruction;
pub mod state;
pub mod stmt;
pub mod token;
pub mod lexer;
pub mod embed;
pub mod syntax;
pub mod parser;
pub mod compiler;
pub mod pipeline;
pub mod value;
pub mod strings;
pub mod operators;
pub mod machine;
