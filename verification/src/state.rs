//! The state shared by the lexer and the parser: source, tokens, errors, statements.

use vstd::prelude::*;
use crate::stmt::Stmt;
use crate::token::TokenData;

verus! {

/// An error found while reading the source: its message, line and byte position.
#[derive(Debug, Clone)]
pub struct InterpreterError {
    pub message: String,
    pub line: i32,
    pub pos: usize,
}

/// Source text and what the lexer and the parser made of it.
#[derive(Debug)]
pub struct InterpreterState {
    pub source: String,
    pub tokens: Vec<TokenData>,
    pub errors: Vec<InterpreterError>,
    pub stmts: Vec<Stmt>,
}

impl InterpreterState {
    /// A state holding `source` and nothing read from it yet.
    pub fn new(source: String) -> (r: Self)
        ensures
            r.source == source,
            r.tokens@.len() == 0,
            r.errors@.len() == 0,
            r.stmts@.len() == 0,
    {
        InterpreterState { source: source, tokens: vec![], errors: vec![], stmts: vec![] }
    }

    /// Records an error.
    pub fn set_error(&mut self, err: InterpreterError)
        ensures
            final(self).errors@ == old(self).errors@.push(err),
            final(self).source == old(self).source,
            final(self).tokens == old(self).tokens,
            final(self).stmts == old(self).stmts,
    {
        self.errors.push(err);
    }

    /// Records an error after which reading stops; the caller abandons its work.
    pub fn fatal_error(&mut self, err: InterpreterError)
        ensures
            final(self).errors@ == old(self).errors@.push(err),
            final(self).source == old(self).source,
            final(self).tokens == old(self).tokens,
            final(self).stmts == old(self).stmts,
    {
        self.errors.push(err);
    }
}

} // verus!
