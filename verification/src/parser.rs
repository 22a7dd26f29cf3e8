//! The parser: turns tokens into statements by recursive descent.
//!
//! Newlines end statements; elsewhere a looked-for token may be preceded by
//! newlines, which are then skipped. Errors found along the way are recorded in
//! the state; some of them abandon the parse, which then returns `Err(())`.

use vstd::prelude::*;
use vstd::string::*;
use crate::expr::{AccessExpr, AssignExpr, BinaryExpr, CallExpr, DictionaryExpr, Expr, FnExpr, GetExpr, GroupingExpr, ListExpr, LiteralExpr, LogicalExpr, SetExpr, SuperExpr, ThisExpr, UnaryExpr, VarExpr};
use crate::lexer::push_char;
use crate::state::{InterpreterError, InterpreterState};
use crate::syntax::{binary_binding, binding, lemma_wf_elifs_push, lemma_wf_empty, lemma_wf_exprs_push, lemma_wf_fn_stmts_push, lemma_wf_stmts_push, wf_access, wf_elifs, wf_expr, wf_exprs, wf_fn_stmt, wf_fn_stmts, wf_stmt, wf_stmts};
use crate::stmt::{BlockStmt, BreakStmt, ClassStmt, ClassicForStmt, ContinueStmt, ElifBranch, EnhancedForStmt, ExprStmt, FnStmt, IfStmt, LetStmt, ReturnStmt, Stmt, TryCatchStmt, WhileStmt};
use crate::token::{Literal, Token, TokenData};

verus! {

/// The function being parsed, and how many loops around the current position.
#[derive(Debug, Clone)]
pub struct CallStack {
    pub function: String,
    pub loop_count: usize,
}

/// Reads the tokens of a state into statements.
pub struct Parser {
    pub current: usize,
    pub cls: Vec<CallStack>,
    pub state: InterpreterState,
}

/// The largest number of parameters a function is given before the parse is abandoned.
pub const MAX_FUNCTION_PARAMS: usize = 255;

/// First position from `i` holding no newline.
pub open spec fn skip_newlines(toks: Seq<TokenData>, i: int) -> int
    decreases toks.len() - i,
{
    if i < 0 || i >= toks.len() || toks[i].token != Token::Newline {
        i
    } else {
        skip_newlines(toks, i + 1)
    }
}

/// Where a looked-for token would be: here for a newline, after newlines otherwise.
pub open spec fn lookup_at(toks: Seq<TokenData>, i: int, t: Token) -> int {
    if t == Token::Newline { i } else { skip_newlines(toks, i) }
}

proof fn lemma_skip_newlines(toks: Seq<TokenData>, i: int)
    requires
        0 <= i < toks.len(),
        toks.last().token == Token::EOF,
    ensures
        i <= skip_newlines(toks, i) < toks.len(),
        toks[skip_newlines(toks, i)].token != Token::Newline,
        forall|j: int| i <= j < skip_newlines(toks, i) ==> toks[j].token == Token::Newline,
    decreases toks.len() - i,
{
    if toks[i].token == Token::Newline {
        lemma_skip_newlines(toks, i + 1);
    }
}

/// A token that is a literal by itself: a number or a string with its value,
/// `true`, `false` or `nil`.
pub open spec fn is_literal_token(t: TokenData) -> bool {
    ||| (t.token == Token::Number || t.token == Token::String) && t.literal is Some
    ||| t.token == Token::True
    ||| t.token == Token::False
    ||| t.token == Token::Nil
}

/// The expression that the literal token `t` stands for.
pub open spec fn literal_expr(t: TokenData) -> Expr {
    if t.token == Token::True {
        Expr::Literal(LiteralExpr { value: Literal::Boolean(true) })
    } else if t.token == Token::False {
        Expr::Literal(LiteralExpr { value: Literal::Boolean(false) })
    } else if t.token == Token::Nil {
        Expr::Literal(LiteralExpr { value: Literal::Nil })
    } else {
        Expr::Literal(LiteralExpr { value: t.literal->0 })
    }
}

/// A token that may start a simple line (a literal or `let`), or the end of
/// input.
pub open spec fn line_start(t: TokenData) -> bool {
    is_literal_token(t) || t.token == Token::Let || t.token == Token::EOF
}

/// Position `i` of `toks` holds one literal followed by a newline, followed by
/// the start of another simple line or the end of input.
pub open spec fn literal_line(toks: Seq<TokenData>, i: int) -> bool {
    &&& 0 <= i && i + 2 < toks.len()
    &&& is_literal_token(toks[i])
    &&& toks[i + 1].token == Token::Newline
    &&& line_start(toks[i + 2])
}

/// Position `i` of `toks` holds `let name = literal` and a newline, followed
/// by the start of another simple line or the end of input.
pub open spec fn let_line(toks: Seq<TokenData>, i: int) -> bool {
    &&& 0 <= i
    &&& toks[i].token == Token::Let
    &&& toks[i + 1].token == Token::Identifier
    &&& toks[i + 2].token == Token::Equal
    &&& literal_line(toks, i + 3)
}

/// Position `i` of `toks` holds a simple line: a literal, or `let name =
/// literal`.
pub open spec fn simple_line(toks: Seq<TokenData>, i: int) -> bool {
    literal_line(toks, i) || let_line(toks, i)
}

/// How many tokens the simple line at `i` takes, its newline included.
pub open spec fn line_len(toks: Seq<TokenData>, i: int) -> int {
    if let_line(toks, i) { 5 } else { 2 }
}

/// From position `i`, `toks` holds simple lines, then the end of input.
pub open spec fn simple_program(toks: Seq<TokenData>, i: int) -> bool
    decreases toks.len() - i,
{
    if i < 0 || i >= toks.len() {
        false
    } else if toks[i].token == Token::EOF {
        true
    } else {
        simple_line(toks, i) && simple_program(toks, i + line_len(toks, i))
    }
}

/// The statement of the literal line at `i`.
pub open spec fn literal_stmt(toks: Seq<TokenData>, i: int) -> Stmt {
    Stmt::Expr(ExprStmt { last: Some(toks[i]), expression: literal_expr(toks[i]) })
}

/// The statement of the `let` line at `i`.
pub open spec fn let_line_stmt(toks: Seq<TokenData>, i: int) -> Stmt {
    Stmt::Let(LetStmt { name: toks[i + 1], initializer: Some(literal_expr(toks[i + 3])) })
}

/// The statement of the simple line at `i`.
pub open spec fn line_stmt(toks: Seq<TokenData>, i: int) -> Stmt {
    if let_line(toks, i) { let_line_stmt(toks, i) } else { literal_stmt(toks, i) }
}

/// The statements of the simple lines of `toks` from `i`, one for each.
pub open spec fn simple_stmts(toks: Seq<TokenData>, i: int) -> Seq<Stmt>
    decreases toks.len() - i,
{
    if i < 0 || i + 2 >= toks.len() || toks[i].token == Token::EOF || !simple_line(toks, i) {
        Seq::empty()
    } else {
        seq![line_stmt(toks, i)] + simple_stmts(toks, i + line_len(toks, i))
    }
}

/// Around a literal line, newlines are skipped to the next literal or the end.
proof fn lemma_literal_line(toks: Seq<TokenData>, i: int)
    ensures
        literal_line(toks, i) ==> skip_newlines(toks, i) == i && skip_newlines(toks, i + 1) == i + 2 && skip_newlines(
            toks,
            i + 2,
        ) == i + 2,
{
    if literal_line(toks, i) {
        assert(skip_newlines(toks, i + 2) == i + 2);
        assert(skip_newlines(toks, i + 1) == skip_newlines(toks, i + 2));
    }
}

/// The character of a decimal digit.
pub open spec fn digit_char(d: nat) -> char {
    (48 + d) as char
}

/// The decimal digits of `n`, most significant first.
pub open spec fn decimal(n: nat) -> Seq<char>
    decreases n,
{
    if n < 10 {
        seq![digit_char(n)]
    } else {
        decimal(n / 10).push(digit_char(n % 10))
    }
}

/// Appends the decimal digits of `n` to `s`.
fn push_decimal(s: &mut String, n: usize)
    ensures
        final(s)@ == old(s)@ + decimal(n as nat),
    decreases n,
{
    if n >= 10 {
        push_decimal(s, n / 10);
    }
    let d: u8 = (n % 10) as u8;
    push_char(s, (48u8 + d) as char);
    assert(final(s)@ =~= old(s)@ + decimal(n as nat));
}

impl Parser {
    /// The tokens end with the end of input, the position is on a token and
    /// there is a function being parsed.
    pub open spec fn wf(&self) -> bool {
        &&& 0 < self.state.tokens@.len() <= usize::MAX
        &&& self.state.tokens@.last().token == Token::EOF
        &&& self.current < self.state.tokens@.len()
        &&& self.cls@.len() > 0
    }

    /// What parsing may change from `self` to `new`: the position moves forward,
    /// errors are only added, the tokens, source and statements stay.
    pub open spec fn moves_to(&self, new: &Parser) -> bool {
        &&& new.wf()
        &&& new.state.tokens == self.state.tokens
        &&& new.state.source == self.state.source
        &&& new.state.stmts == self.state.stmts
        &&& self.current <= new.current
        &&& self.state.errors@.len() <= new.state.errors@.len()
        &&& forall|i: int| 0 <= i < self.state.errors@.len() ==> new.state.errors@[i] == self.state.errors@[i]
    }

    /// A parse from `self` to `new` that succeeded (`ok`) leaves as many
    /// functions open as before; one that was abandoned recorded an error.
    pub open spec fn parsed(&self, new: &Parser, ok: bool) -> bool {
        &&& self.moves_to(new)
        &&& ok ==> new.cls@.len() == self.cls@.len()
        &&& !ok ==> new.state.errors@.len() > self.state.errors@.len()
    }

    /// The current position starts a line of one literal (see `literal_line`).
    pub open spec fn at_literal_line(&self) -> bool {
        literal_line(self.state.tokens@, self.current as int)
    }

    /// The current position starts a simple line (see `simple_line`).
    pub open spec fn at_simple_line(&self) -> bool {
        simple_line(self.state.tokens@, self.current as int)
    }

    /// The current position holds `name = literal`, a newline and the start
    /// of a simple line or the end of input.
    pub open spec fn at_let_rest(&self) -> bool {
        let toks = self.state.tokens@;
        let i = self.current as int;
        &&& toks[i].token == Token::Identifier
        &&& toks[i + 1].token == Token::Equal
        &&& literal_line(toks, i + 2)
    }

    /// The expression of the literal at the current position.
    pub open spec fn literal_here(&self) -> Expr {
        literal_expr(self.state.tokens@[self.current as int])
    }

    /// From `self` to `new`, one token was read and nothing else changed.
    pub open spec fn reads_one(&self, new: &Parser) -> bool {
        &&& new.current == self.current + 1
        &&& new.state == self.state
        &&& new.cls == self.cls
    }

    /// No error was added from `self` to `new`.
    pub open spec fn no_new_errors(&self, new: &Parser) -> bool {
        new.state.errors@.len() == self.state.errors@.len()
    }

    /// Position `i` holds token `t`.
    pub open spec fn at(&self, i: int, t: Token) -> bool {
        0 <= i < self.state.tokens@.len() && self.state.tokens@[i].token == t
    }

    /// Where token `t` would be looked for from the current position.
    pub open spec fn lookup(&self, t: Token) -> int {
        lookup_at(self.state.tokens@, self.current as int, t)
    }

    /// A parser of the tokens of `state`, at their start.
    pub fn new(state: InterpreterState) -> (r: Parser)
        ensures
            r.current == 0,
            r.cls@.len() == 0,
            r.state == state,
    {
        Parser { current: 0, cls: vec![], state: state }
    }

    fn enter_function(&mut self, name: String)
        ensures
            final(self).cls@.len() == old(self).cls@.len() + 1,
            final(self).cls@.drop_last() == old(self).cls@,
            final(self).cls@.last().loop_count == 0,
            final(self).cls@.last().function@ == name@,
            final(self).current == old(self).current,
            final(self).state == old(self).state,
    {
        self.cls.push(CallStack { function: name, loop_count: 0 });
        assert(self.cls@.drop_last() =~= old(self).cls@);
    }

    fn peek(&self) -> (t: TokenData)
        requires
            self.current < self.state.tokens@.len(),
        ensures
            t == self.state.tokens@[self.current as int],
    {
        self.state.tokens[self.current].copied()
    }

    fn is_at_end(&self) -> (r: bool)
        requires
            self.current < self.state.tokens@.len(),
        ensures
            r == (self.state.tokens@[self.current as int].token == Token::EOF),
    {
        self.state.tokens[self.current].token == Token::EOF
    }

    /// Records an error with message `msg` on the line of the current token.
    fn error_here(&mut self, msg: &str)
        requires
            old(self).wf(),
        ensures
            old(self).moves_to(final(self)),
            final(self).current == old(self).current,
            final(self).cls == old(self).cls,
            final(self).state.errors@.len() == old(self).state.errors@.len() + 1,
            final(self).state.errors@.last().message@ == msg@,
            final(self).state.errors@.last().line == old(self).state.tokens@[old(self).current as int].line,
            final(self).state.errors@.last().pos == 0,
    {
        let line = self.state.tokens[self.current].line;
        let message = String::from_str(msg);
        self.state.set_error(InterpreterError { message: message, line: line, pos: 0 });
    }

    /// Leaves the function `name`; abandons the parse if another function is open.
    fn leave_function(&mut self, name: String) -> (r: Result<(), ()>)
        requires
            old(self).current < old(self).state.tokens@.len(),
            old(self).cls@.len() > 0,
        ensures
            final(self).current == old(self).current,
            final(self).state.tokens == old(self).state.tokens,
            final(self).state.source == old(self).state.source,
            final(self).state.stmts == old(self).state.stmts,
            r is Ok <==> old(self).cls@.last().function@ == name@,
            r is Ok ==> final(self).state.errors == old(self).state.errors,
            r is Ok ==> final(self).cls@ == old(self).cls@.drop_last(),
            r is Err ==> final(self).cls == old(self).cls,
            r is Err ==> final(self).state.errors@ == old(self).state.errors@.push(final(self).state.errors@.last()),
    {
        let len = self.cls.len();
        if !(self.cls[len - 1].function == name) {
            let line = self.state.tokens[self.current].line;
            let message = String::from_str("Max number of parameters is 255");
            self.state.fatal_error(InterpreterError { message: message, line: line, pos: 0 });
            return Err(());
        }
        self.cls.pop();
        assert(self.cls@ =~= old(self).cls@.drop_last());
        Ok(())
    }

    fn enter_loop(&mut self)
        requires
            old(self).cls@.len() > 0,
        ensures
            final(self).cls@.len() == old(self).cls@.len(),
            final(self).current == old(self).current,
            final(self).state == old(self).state,
            final(self).cls@.drop_last() == old(self).cls@.drop_last(),
            final(self).cls@.last().function == old(self).cls@.last().function,
            final(self).cls@.last().loop_count == (if old(self).cls@.last().loop_count < usize::MAX { old(self).cls@.last().loop_count + 1 } else { old(self).cls@.last().loop_count as int }),
    {
        let mut top = self.cls.pop().unwrap();
        if top.loop_count < usize::MAX {
            top.loop_count = top.loop_count + 1;
        }
        self.cls.push(top);
        assert(self.cls@.drop_last() =~= old(self).cls@.drop_last());
    }

    fn leave_loop(&mut self)
        requires
            old(self).cls@.len() > 0,
        ensures
            final(self).cls@.len() == old(self).cls@.len(),
            final(self).current == old(self).current,
            final(self).state == old(self).state,
            final(self).cls@.drop_last() == old(self).cls@.drop_last(),
            final(self).cls@.last().function == old(self).cls@.last().function,
            final(self).cls@.last().loop_count == (if old(self).cls@.last().loop_count > 0 { old(self).cls@.last().loop_count - 1 } else { 0 }),
    {
        let mut top = self.cls.pop().unwrap();
        if top.loop_count > 0 {
            top.loop_count = top.loop_count - 1;
        }
        self.cls.push(top);
        assert(self.cls@.drop_last() =~= old(self).cls@.drop_last());
    }

    /// Whether the position is inside a loop of the function being parsed.
    fn inside_loop(&self) -> (r: bool)
        requires
            self.cls@.len() > 0,
        ensures
            r == (self.cls@.last().loop_count != 0),
    {
        self.cls[self.cls.len() - 1].loop_count != 0
    }

    /// Whether `token` is next: moves past newlines before it (unless a newline
    /// is looked for) when it is, and stays where it was when it is not.
    fn check(&mut self, token: Token) -> (r: bool)
        requires
            old(self).wf(),
        ensures
            old(self).moves_to(final(self)),
            old(self).no_new_errors(final(self)),
            final(self).cls == old(self).cls,
            final(self).state == old(self).state,
            r == old(self).at(old(self).lookup(token), token),
            r ==> final(self).current == old(self).lookup(token),
            !r ==> final(self).current == old(self).current,
    {
        let ghost toks = self.state.tokens@;
        proof {
            lemma_skip_newlines(toks, self.current as int);
        }
        let old_current = self.current;
        while token != Token::Newline && !self.is_at_end() && self.state.tokens[self.current].token == Token::Newline
            invariant
                self.wf(),
                self.state == old(self).state,
                self.cls == old(self).cls,
                toks == self.state.tokens@,
                old(self).current <= self.current <= skip_newlines(toks, old(self).current as int),
                skip_newlines(toks, self.current as int) == skip_newlines(toks, old(self).current as int),
                token == Token::Newline ==> self.current == old(self).current,
            decreases toks.len() - self.current,
        {
            proof {
                lemma_skip_newlines(toks, self.current as int + 1);
            }
            self.current = self.current + 1;
        }
        proof {
            if token != Token::Newline {
                assert(skip_newlines(toks, self.current as int) == self.current);
            }
        }
        let matchs = self.state.tokens[self.current].token == token;
        if !matchs {
            self.current = old_current;
        }
        matchs
    }

    /// Moves past `token` when it is next (see `check`).
    fn matches(&mut self, token: Token) -> (r: bool)
        requires
            old(self).wf(),
            token != Token::EOF,
        ensures
            old(self).moves_to(final(self)),
            old(self).no_new_errors(final(self)),
            final(self).cls == old(self).cls,
            final(self).state == old(self).state,
            r == old(self).at(old(self).lookup(token), token),
            r ==> final(self).current == old(self).lookup(token) + 1,
            r ==> final(self).current > old(self).current,
            !r ==> final(self).current == old(self).current,
    {
        if self.check(token) {
            self.current = self.current + 1;
            true
        } else {
            false
        }
    }

    /// Moves past the first of `tokens` that is next, if one is.
    fn matches_many(&mut self, tokens: Vec<Token>) -> (r: bool)
        requires
            old(self).wf(),
            forall|i: int| 0 <= i < tokens@.len() ==> tokens@[i] != Token::EOF,
        ensures
            old(self).moves_to(final(self)),
            old(self).no_new_errors(final(self)),
            final(self).cls == old(self).cls,
            final(self).state == old(self).state,
            r ==> final(self).current > old(self).current,
            r ==> tokens@.contains(final(self).state.tokens@[final(self).current - 1].token),
            !r ==> final(self).current == old(self).current,
            r <==> exists|k: int| 0 <= k < tokens@.len() && old(self).at(old(self).lookup(#[trigger] tokens@[k]), tokens@[k]),
            r ==> exists|k: int| 0 <= k < tokens@.len() && old(self).at(old(self).lookup(#[trigger] tokens@[k]), tokens@[k])
                && final(self).current == old(self).lookup(tokens@[k]) + 1,
    {
        let mut i: usize = 0;
        while i < tokens.len()
            invariant
                self.wf(),
                self.current == old(self).current,
                self.state == old(self).state,
                self.cls == old(self).cls,
                0 <= i <= tokens@.len(),
                forall|k: int| 0 <= k < tokens@.len() ==> tokens@[k] != Token::EOF,
                forall|k: int| 0 <= k < i ==> !old(self).at(old(self).lookup(#[trigger] tokens@[k]), tokens@[k]),
            decreases tokens@.len() - i,
        {
            let t = tokens[i];
            if self.matches(t) {
                assert(tokens@[i as int] == self.state.tokens@[self.current - 1].token);
                return true;
            }
            i = i + 1;
        }
        false
    }

    /// The token before the current position.
    fn previous(&self) -> (t: TokenData)
        requires
            0 < self.current <= self.state.tokens@.len(),
        ensures
            t == self.state.tokens@[self.current - 1],
    {
        self.state.tokens[self.current - 1].copied()
    }

    /// Moves past the current token, which is not the end of input, and returns it.
    fn advance(&mut self) -> (t: TokenData)
        requires
            old(self).wf(),
            old(self).state.tokens@[old(self).current as int].token != Token::EOF,
        ensures
            final(self).current == old(self).current + 1,
            final(self).state == old(self).state,
            final(self).cls == old(self).cls,
            t == old(self).state.tokens@[old(self).current as int],
    {
        if !self.is_at_end() {
            self.current = self.current + 1;
        }
        self.previous()
    }

    /// Moves past `token` and returns it when it is next; records an error with
    /// message `msg` when it is not.
    fn consume(&mut self, token: Token, msg: &str) -> (r: Option<TokenData>)
        requires
            old(self).wf(),
            token != Token::EOF,
        ensures
            old(self).moves_to(final(self)),
            final(self).cls == old(self).cls,
            r is Some == old(self).at(old(self).lookup(token), token),
            r matches Some(t) ==> {
                &&& t == old(self).state.tokens@[old(self).lookup(token)]
                &&& final(self).current == old(self).lookup(token) + 1
                &&& final(self).current > old(self).current
                &&& old(self).no_new_errors(final(self))
            },
            r is None ==> final(self).current == old(self).current,
            r is None ==> final(self).state.errors@.len() == old(self).state.errors@.len() + 1,
            r is None ==> final(self).state.errors@.last().message@ == msg@,
    {
        if self.check(token) {
            Some(self.advance())
        } else {
            self.error_here(msg);
            None
        }
    }
}

/// A token standing for an absent colon of a slice.
fn nil_token() -> (t: TokenData)
    ensures
        t.token == Token::Nil,
        t.literal is None,
        t.line == 0,
{
    TokenData { token: Token::Nil, lexeme: String::new(), literal: None, line: 0 }
}

/// A copy of the innermost object of a chain of accesses `object[..][..]...`.
fn innermost_object(a: &AccessExpr) -> (e: Expr)
    ensures
        !(e is Access),
        wf_access(*a) ==> wf_expr(e),
    decreases a,
{
    match &*a.object {
        Expr::Access(inner) => innermost_object(inner),
        other => {
            let e = other.copied();
            if e.is_empty() {
                Expr::Empty
            } else {
                match e {
                    Expr::Access(_) => Expr::Empty,
                    e => e,
                }
            }
        },
    }
}

/// The token that marks where an expression was read: the operator of an
/// operation, the name of a variable, `this`, and for an assignment, a property
/// read or a grouping, the mark of the expression it holds; other expressions
/// have none.
pub open spec fn expr_mark(e: Expr) -> Option<TokenData>
    decreases e,
{
    match e {
        Expr::Binary(b) => Some(b.operator),
        Expr::Logical(l) => Some(l.operator),
        Expr::Unary(u) => Some(u.operator),
        Expr::Var(v) => v.name,
        Expr::This(t) => Some(t.keyword),
        Expr::Assign(a) => expr_mark(*a.value),
        Expr::SetProp(st) => expr_mark(*st.value),
        Expr::Get(g) => expr_mark(*g.object),
        Expr::Grouping(g) => expr_mark(*g.expression),
        _ => None,
    }
}

/// The expression `e` was read from the tokens `toks` between positions `lo`
/// (included) and `hi` (excluded): its mark, if it has one, is one of them.
pub open spec fn read_between(e: Expr, toks: Seq<TokenData>, lo: int, hi: int) -> bool {
    expr_mark(e) matches Some(t) ==> exists|k: int| lo <= k < hi && toks[k] == t
}

/// The parts of a classic `for` loop were read from `toks` between `lo` and
/// `hi` in their order: the condition before a position `m`, the increment
/// from `m` on, and the token before `m` is the semicolon that ends the
/// condition unless its absence was recorded as an error (`semicolon_missed`).
pub open spec fn for_parts_read(f: ClassicForStmt, toks: Seq<TokenData>, lo: int, hi: int, semicolon_missed: bool) -> bool {
    exists|m: int|
        lo < m <= hi && #[trigger] read_between(f.condition, toks, lo, m) && read_between(f.increment, toks, m, hi)
            && (!semicolon_missed ==> toks[m - 1].token == Token::Semicolon)
}

/// In a classic `for` loop read from the tokens, the condition comes before the
/// increment: where each has a mark found at one position only, the
/// condition's mark stands before the increment's, and a semicolon stands
/// between them when none was missed.
pub proof fn lemma_for_condition_before_increment(
    f: ClassicForStmt,
    toks: Seq<TokenData>,
    lo: int,
    hi: int,
    semicolon_missed: bool,
    i: int,
    j: int,
)
    requires
        for_parts_read(f, toks, lo, hi, semicolon_missed),
        0 <= lo,
        hi <= toks.len(),
        0 <= i < toks.len(),
        0 <= j < toks.len(),
        expr_mark(f.condition) == Some(toks[i]),
        expr_mark(f.increment) == Some(toks[j]),
        forall|k: int| 0 <= k < toks.len() && #[trigger] toks[k] == toks[i] ==> k == i,
        forall|k: int| 0 <= k < toks.len() && #[trigger] toks[k] == toks[j] ==> k == j,
    ensures
        lo <= i < j < hi,
        !semicolon_missed ==> exists|k: int| i <= k < j && (#[trigger] toks[k]).token == Token::Semicolon,
{
    let m = choose|m: int|
        lo < m <= hi && #[trigger] read_between(f.condition, toks, lo, m) && read_between(f.increment, toks, m, hi)
            && (!semicolon_missed ==> toks[m - 1].token == Token::Semicolon);
    let a = choose|k: int| lo <= k < m && toks[k] == toks[i];
    let b = choose|k: int| m <= k < hi && toks[k] == toks[j];
    assert(a == i);
    assert(b == j);
    if !semicolon_missed {
        assert(i <= m - 1 < j && toks[m - 1].token == Token::Semicolon);
    }
}

proof fn lemma_read_widen(e: Expr, toks: Seq<TokenData>, lo: int, hi: int, lo2: int, hi2: int)
    requires
        read_between(e, toks, lo, hi),
        lo2 <= lo,
        hi <= hi2,
    ensures
        read_between(e, toks, lo2, hi2),
{
    if let Some(t) = expr_mark(e) {
        let k = choose|k: int| lo <= k < hi && toks[k] == t;
        assert(lo2 <= k < hi2 && toks[k] == t);
    }
}

impl Parser {
    fn expression(&mut self) -> (r: Result<Expr, ()>)
        requires
            old(self).wf(),
        ensures
            r matches Ok(e) ==> read_between(e, old(self).state.tokens@, old(self).current as int, final(self).current as int),
            r matches Ok(e) ==> (old(self).no_new_errors(final(self)) ==> wf_expr(e)),
            old(self).parsed(final(self), r is Ok),
            r is Ok ==> final(self).current > old(self).current,
            old(self).at_literal_line() ==> r == Ok::<Expr, ()>(old(self).literal_here()) && old(self).reads_one(final(self)),
        decreases old(self).state.tokens@.len() - old(self).current, 12int,
    {
        proof {
            lemma_literal_line(self.state.tokens@, self.current as int);
        }
        self.assignment()
    }

    fn assignment(&mut self) -> (r: Result<Expr, ()>)
        requires
            old(self).wf(),
        ensures
            r matches Ok(e) ==> read_between(e, old(self).state.tokens@, old(self).current as int, final(self).current as int),
            r matches Ok(e) ==> (old(self).no_new_errors(final(self)) ==> wf_expr(e)),
            old(self).parsed(final(self), r is Ok),
            r is Ok ==> final(self).current > old(self).current,
            old(self).at_literal_line() ==> r == Ok::<Expr, ()>(old(self).literal_here()) && old(self).reads_one(final(self)),
        decreases old(self).state.tokens@.len() - old(self).current, 11int,
    {
        proof {
            lemma_literal_line(self.state.tokens@, self.current as int);
        }
        let expr = self.or()?;
        if self.matches(Token::Equal) {
            let equal = self.previous();
            let ghost cv: int = self.current as int;
            let value = self.assignment()?;
            proof {
                lemma_read_widen(value, self.state.tokens@, cv, self.current as int, old(self).current as int, self.current as int);
            }
            let (target, access) = match expr {
                Expr::Access(a) => (innermost_object(&a), Some(a)),
                other => (other, None),
            };
            match target {
                Expr::Var(variable) => {
                    if let Some(name) = variable.name {
                        return Ok(Expr::Assign(AssignExpr { name: name, value: Box::new(value), access: access }));
                    }
                },
                Expr::Get(get) => {
                    return Ok(
                        Expr::SetProp(
                            SetExpr { name: get.name, value: Box::new(value), object: get.object, access: access },
                        ),
                    );
                },
                _ => {},
            }
            let message = String::from_str("Undefined statement");
            self.state.fatal_error(InterpreterError { message: message, line: equal.line, pos: 0 });
            return Err(());
        }
        Ok(expr)
    }

    fn or(&mut self) -> (r: Result<Expr, ()>)
        requires
            old(self).wf(),
        ensures
            r matches Ok(e) ==> read_between(e, old(self).state.tokens@, old(self).current as int, final(self).current as int),
            r matches Ok(e) ==> (old(self).no_new_errors(final(self)) ==> wf_expr(e)),
            old(self).parsed(final(self), r is Ok),
            r is Ok ==> final(self).current > old(self).current,
            r matches Ok(e) ==> binding(e) >= 1,
            old(self).at_literal_line() ==> r == Ok::<Expr, ()>(old(self).literal_here()) && old(self).reads_one(final(self)),
        decreases old(self).state.tokens@.len() - old(self).current, 10int,
    {
        proof {
            lemma_literal_line(self.state.tokens@, self.current as int);
        }
        let mut expr = self.and()?;
        loop
            invariant
                old(self).at_literal_line() ==> expr == old(self).literal_here() && old(self).reads_one(self),
                binding(expr) >= 1,
                old(self).moves_to(self),
                self.cls@.len() == old(self).cls@.len(),
                self.current > old(self).current,
                self.state.errors@.len() == old(self).state.errors@.len() ==> wf_expr(expr),
                read_between(expr, old(self).state.tokens@, old(self).current as int, self.current as int),
            decreases self.state.tokens@.len() - self.current,
        {
            proof {
                lemma_literal_line(old(self).state.tokens@, old(self).current as int);
            }
            if !self.matches(Token::Or) {
                break;
            }
            let operator = self.previous();
            let ghost opk: int = self.current - 1;
            let right = self.and()?;
            expr = Expr::Logical(LogicalExpr { left: Box::new(expr), operator: operator, right: Box::new(right) });
            proof {
                assert(self.state.tokens@[opk] == operator);
            }
        }
        Ok(expr)
    }

    fn and(&mut self) -> (r: Result<Expr, ()>)
        requires
            old(self).wf(),
        ensures
            r matches Ok(e) ==> read_between(e, old(self).state.tokens@, old(self).current as int, final(self).current as int),
            r matches Ok(e) ==> (old(self).no_new_errors(final(self)) ==> wf_expr(e)),
            old(self).parsed(final(self), r is Ok),
            r is Ok ==> final(self).current > old(self).current,
            r matches Ok(e) ==> binding(e) >= 2,
            old(self).at_literal_line() ==> r == Ok::<Expr, ()>(old(self).literal_here()) && old(self).reads_one(final(self)),
        decreases old(self).state.tokens@.len() - old(self).current, 9int,
    {
        proof {
            lemma_literal_line(self.state.tokens@, self.current as int);
        }
        let mut expr = self.equality()?;
        loop
            invariant
                old(self).at_literal_line() ==> expr == old(self).literal_here() && old(self).reads_one(self),
                binding(expr) >= 2,
                old(self).moves_to(self),
                self.cls@.len() == old(self).cls@.len(),
                self.current > old(self).current,
                self.state.errors@.len() == old(self).state.errors@.len() ==> wf_expr(expr),
                read_between(expr, old(self).state.tokens@, old(self).current as int, self.current as int),
            decreases self.state.tokens@.len() - self.current,
        {
            proof {
                lemma_literal_line(old(self).state.tokens@, old(self).current as int);
            }
            if !self.matches(Token::And) {
                break;
            }
            let operator = self.previous();
            let ghost opk: int = self.current - 1;
            let right = self.equality()?;
            expr = Expr::Logical(LogicalExpr { left: Box::new(expr), operator: operator, right: Box::new(right) });
            proof {
                assert(self.state.tokens@[opk] == operator);
            }
        }
        Ok(expr)
    }

    fn equality(&mut self) -> (r: Result<Expr, ()>)
        requires
            old(self).wf(),
        ensures
            r matches Ok(e) ==> read_between(e, old(self).state.tokens@, old(self).current as int, final(self).current as int),
            r matches Ok(e) ==> (old(self).no_new_errors(final(self)) ==> wf_expr(e)),
            old(self).parsed(final(self), r is Ok),
            r is Ok ==> final(self).current > old(self).current,
            r matches Ok(e) ==> binding(e) >= 3,
            old(self).at_literal_line() ==> r == Ok::<Expr, ()>(old(self).literal_here()) && old(self).reads_one(final(self)),
        decreases old(self).state.tokens@.len() - old(self).current, 8int,
    {
        proof {
            lemma_literal_line(self.state.tokens@, self.current as int);
        }
        let mut expr = self.comparison()?;
        loop
            invariant
                old(self).at_literal_line() ==> expr == old(self).literal_here() && old(self).reads_one(self),
                binding(expr) >= 3,
                old(self).moves_to(self),
                self.cls@.len() == old(self).cls@.len(),
                self.current > old(self).current,
                self.state.errors@.len() == old(self).state.errors@.len() ==> wf_expr(expr),
                read_between(expr, old(self).state.tokens@, old(self).current as int, self.current as int),
            decreases self.state.tokens@.len() - self.current,
        {
            proof {
                lemma_literal_line(old(self).state.tokens@, old(self).current as int);
            }
            if !self.matches_many(vec![Token::EqualEqual, Token::BangEqual]) {
                break;
            }
            let operator = self.previous();
            let ghost opk: int = self.current - 1;
            assert(binary_binding(operator.token) == 3);
            let right = self.comparison()?;
            expr = Expr::Binary(BinaryExpr { left: Box::new(expr), operator: operator, right: Box::new(right) });
            proof {
                assert(self.state.tokens@[opk] == operator);
            }
        }
        Ok(expr)
    }

    fn comparison(&mut self) -> (r: Result<Expr, ()>)
        requires
            old(self).wf(),
        ensures
            r matches Ok(e) ==> read_between(e, old(self).state.tokens@, old(self).current as int, final(self).current as int),
            r matches Ok(e) ==> (old(self).no_new_errors(final(self)) ==> wf_expr(e)),
            old(self).parsed(final(self), r is Ok),
            r is Ok ==> final(self).current > old(self).current,
            r matches Ok(e) ==> binding(e) >= 4,
            old(self).at_literal_line() ==> r == Ok::<Expr, ()>(old(self).literal_here()) && old(self).reads_one(final(self)),
        decreases old(self).state.tokens@.len() - old(self).current, 7int,
    {
        proof {
            lemma_literal_line(self.state.tokens@, self.current as int);
        }
        let mut expr = self.addition()?;
        loop
            invariant
                old(self).at_literal_line() ==> expr == old(self).literal_here() && old(self).reads_one(self),
                binding(expr) >= 4,
                old(self).moves_to(self),
                self.cls@.len() == old(self).cls@.len(),
                self.current > old(self).current,
                self.state.errors@.len() == old(self).state.errors@.len() ==> wf_expr(expr),
                read_between(expr, old(self).state.tokens@, old(self).current as int, self.current as int),
            decreases self.state.tokens@.len() - self.current,
        {
            proof {
                lemma_literal_line(old(self).state.tokens@, old(self).current as int);
            }
            if !self.matches_many(vec![Token::Greater, Token::GreaterEqual, Token::Less, Token::LessEqual]) {
                break;
            }
            let operator = self.previous();
            let ghost opk: int = self.current - 1;
            assert(binary_binding(operator.token) == 4);
            let right = self.addition()?;
            expr = Expr::Binary(BinaryExpr { left: Box::new(expr), operator: operator, right: Box::new(right) });
            proof {
                assert(self.state.tokens@[opk] == operator);
            }
        }
        Ok(expr)
    }

    fn addition(&mut self) -> (r: Result<Expr, ()>)
        requires
            old(self).wf(),
        ensures
            r matches Ok(e) ==> read_between(e, old(self).state.tokens@, old(self).current as int, final(self).current as int),
            r matches Ok(e) ==> (old(self).no_new_errors(final(self)) ==> wf_expr(e)),
            old(self).parsed(final(self), r is Ok),
            r is Ok ==> final(self).current > old(self).current,
            r matches Ok(e) ==> binding(e) >= 5,
            old(self).at_literal_line() ==> r == Ok::<Expr, ()>(old(self).literal_here()) && old(self).reads_one(final(self)),
        decreases old(self).state.tokens@.len() - old(self).current, 6int,
    {
        proof {
            lemma_literal_line(self.state.tokens@, self.current as int);
        }
        let mut expr = self.multiplication()?;
        loop
            invariant
                old(self).at_literal_line() ==> expr == old(self).literal_here() && old(self).reads_one(self),
                binding(expr) >= 5,
                old(self).moves_to(self),
                self.cls@.len() == old(self).cls@.len(),
                self.current > old(self).current,
                self.state.errors@.len() == old(self).state.errors@.len() ==> wf_expr(expr),
                read_between(expr, old(self).state.tokens@, old(self).current as int, self.current as int),
            decreases self.state.tokens@.len() - self.current,
        {
            proof {
                lemma_literal_line(old(self).state.tokens@, old(self).current as int);
            }
            if !self.matches_many(vec![Token::Plus, Token::Minus]) {
                break;
            }
            let operator = self.previous();
            let ghost opk: int = self.current - 1;
            assert(binary_binding(operator.token) == 5);
            let right = self.multiplication()?;
            expr = Expr::Binary(BinaryExpr { left: Box::new(expr), operator: operator, right: Box::new(right) });
            proof {
                assert(self.state.tokens@[opk] == operator);
            }
        }
        Ok(expr)
    }

    fn multiplication(&mut self) -> (r: Result<Expr, ()>)
        requires
            old(self).wf(),
        ensures
            r matches Ok(e) ==> read_between(e, old(self).state.tokens@, old(self).current as int, final(self).current as int),
            r matches Ok(e) ==> (old(self).no_new_errors(final(self)) ==> wf_expr(e)),
            old(self).parsed(final(self), r is Ok),
            r is Ok ==> final(self).current > old(self).current,
            r matches Ok(e) ==> binding(e) >= 6,
            old(self).at_literal_line() ==> r == Ok::<Expr, ()>(old(self).literal_here()) && old(self).reads_one(final(self)),
        decreases old(self).state.tokens@.len() - old(self).current, 5int,
    {
        proof {
            lemma_literal_line(self.state.tokens@, self.current as int);
        }
        let mut expr = self.power()?;
        loop
            invariant
                old(self).at_literal_line() ==> expr == old(self).literal_here() && old(self).reads_one(self),
                binding(expr) >= 6,
                old(self).moves_to(self),
                self.cls@.len() == old(self).cls@.len(),
                self.current > old(self).current,
                self.state.errors@.len() == old(self).state.errors@.len() ==> wf_expr(expr),
                read_between(expr, old(self).state.tokens@, old(self).current as int, self.current as int),
            decreases self.state.tokens@.len() - self.current,
        {
            proof {
                lemma_literal_line(old(self).state.tokens@, old(self).current as int);
            }
            if !self.matches_many(vec![Token::Slash, Token::Mod, Token::Star]) {
                break;
            }
            let operator = self.previous();
            let ghost opk: int = self.current - 1;
            assert(binary_binding(operator.token) == 6);
            let right = self.power()?;
            expr = Expr::Binary(BinaryExpr { left: Box::new(expr), operator: operator, right: Box::new(right) });
            proof {
                assert(self.state.tokens@[opk] == operator);
            }
        }
        Ok(expr)
    }

    fn power(&mut self) -> (r: Result<Expr, ()>)
        requires
            old(self).wf(),
        ensures
            r matches Ok(e) ==> read_between(e, old(self).state.tokens@, old(self).current as int, final(self).current as int),
            r matches Ok(e) ==> (old(self).no_new_errors(final(self)) ==> wf_expr(e)),
            old(self).parsed(final(self), r is Ok),
            r is Ok ==> final(self).current > old(self).current,
            r matches Ok(e) ==> binding(e) >= 7,
            old(self).at_literal_line() ==> r == Ok::<Expr, ()>(old(self).literal_here()) && old(self).reads_one(final(self)),
        decreases old(self).state.tokens@.len() - old(self).current, 4int,
    {
        proof {
            lemma_literal_line(self.state.tokens@, self.current as int);
        }
        let mut expr = self.unary()?;
        loop
            invariant
                old(self).at_literal_line() ==> expr == old(self).literal_here() && old(self).reads_one(self),
                binding(expr) >= 7,
                old(self).moves_to(self),
                self.cls@.len() == old(self).cls@.len(),
                self.current > old(self).current,
                self.state.errors@.len() == old(self).state.errors@.len() ==> wf_expr(expr),
                read_between(expr, old(self).state.tokens@, old(self).current as int, self.current as int),
            decreases self.state.tokens@.len() - self.current,
        {
            proof {
                lemma_literal_line(old(self).state.tokens@, old(self).current as int);
            }
            if !self.matches(Token::Power) {
                break;
            }
            let operator = self.previous();
            let ghost opk: int = self.current - 1;
            assert(binary_binding(operator.token) == 7);
            let right = self.unary()?;
            expr = Expr::Binary(BinaryExpr { left: Box::new(expr), operator: operator, right: Box::new(right) });
            proof {
                assert(self.state.tokens@[opk] == operator);
            }
        }
        Ok(expr)
    }

    fn unary(&mut self) -> (r: Result<Expr, ()>)
        requires
            old(self).wf(),
        ensures
            r matches Ok(e) ==> read_between(e, old(self).state.tokens@, old(self).current as int, final(self).current as int),
            r matches Ok(e) ==> (old(self).no_new_errors(final(self)) ==> wf_expr(e)),
            old(self).parsed(final(self), r is Ok),
            r is Ok ==> final(self).current > old(self).current,
            r matches Ok(e) ==> binding(e) >= 8,
            old(self).at_literal_line() ==> r == Ok::<Expr, ()>(old(self).literal_here()) && old(self).reads_one(final(self)),
        decreases old(self).state.tokens@.len() - old(self).current, 3int,
    {
        proof {
            lemma_literal_line(self.state.tokens@, self.current as int);
        }
        if self.matches_many(vec![Token::Not, Token::Minus]) {
            let operator = self.previous();
            let ghost opk: int = self.current - 1;
            let right = self.unary()?;
            proof {
                assert(self.state.tokens@[opk] == operator);
            }
            return Ok(Expr::Unary(UnaryExpr { operator: operator, right: Box::new(right) }));
        }
        self.call()
    }

    fn call(&mut self) -> (r: Result<Expr, ()>)
        requires
            old(self).wf(),
        ensures
            r matches Ok(e) ==> read_between(e, old(self).state.tokens@, old(self).current as int, final(self).current as int),
            r matches Ok(e) ==> (old(self).no_new_errors(final(self)) ==> wf_expr(e)),
            old(self).parsed(final(self), r is Ok),
            r is Ok ==> final(self).current > old(self).current,
            r matches Ok(e) ==> binding(e) >= 9,
            old(self).at_literal_line() ==> r == Ok::<Expr, ()>(old(self).literal_here()) && old(self).reads_one(final(self)),
        decreases old(self).state.tokens@.len() - old(self).current, 2int,
    {
        proof {
            lemma_literal_line(self.state.tokens@, self.current as int);
        }
        let mut expr = self.primary()?;
        loop
            invariant
                old(self).at_literal_line() ==> expr == old(self).literal_here() && old(self).reads_one(self),
                binding(expr) >= 9,
                old(self).moves_to(self),
                self.cls@.len() == old(self).cls@.len(),
                self.current > old(self).current,
                self.state.errors@.len() == old(self).state.errors@.len() ==> wf_expr(expr),
                read_between(expr, old(self).state.tokens@, old(self).current as int, self.current as int),
            decreases self.state.tokens@.len() - self.current,
        {
            proof {
                lemma_literal_line(old(self).state.tokens@, old(self).current as int);
            }
            let ghost c_start: int = self.current as int;
            if self.matches(Token::LeftParen) {
                expr = self.finish_call(expr)?;
            } else if self.matches(Token::Dot) {
                let name = match self.consume(Token::Identifier, "Expected property name after '.'") {
                    Some(t) => t,
                    None => return Err(()),
                };
                proof {
                    lemma_read_widen(expr, self.state.tokens@, old(self).current as int, c_start, old(self).current as int, self.current as int);
                }
                expr = Expr::Get(GetExpr { object: Box::new(expr), name: name });
            } else if self.matches(Token::LeftBrace) {
                expr = self.access(expr)?;
            } else {
                break;
            }
        }
        Ok(expr)
    }

    fn finish_call(&mut self, callee: Expr) -> (r: Result<Expr, ()>)
        requires
            old(self).wf(),
        ensures
            r matches Ok(e) ==> (old(self).no_new_errors(final(self)) && wf_expr(callee) ==> wf_expr(e)),
            old(self).parsed(final(self), r is Ok),
            r is Ok ==> final(self).current > old(self).current,
            r matches Ok(e) ==> (e matches Expr::Call(c) && c.arguments@.len() <= MAX_FUNCTION_PARAMS),
        decreases old(self).state.tokens@.len() - old(self).current, 14int,
    {
        let arguments = self.arguments(Token::RightParen)?;
        let paren = match self.consume(Token::RightParen, "Expect ')' after arguments") {
            Some(t) => t,
            None => return Err(()),
        };
        Ok(Expr::Call(CallExpr { callee: Box::new(callee), paren: paren, arguments: arguments }))
    }

    /// The expressions of a list or of a call, up to `token_type`; a call is
    /// given at most 255 of them.
    fn arguments(&mut self, token_type: Token) -> (r: Result<Vec<Expr>, ()>)
        requires
            old(self).wf(),
            token_type != Token::EOF,
        ensures
            r matches Ok(v) ==> (old(self).no_new_errors(final(self)) ==> wf_exprs(v@)),
            old(self).parsed(final(self), r is Ok),
            r matches Ok(v) ==> (token_type == Token::RightParen ==> v@.len() <= MAX_FUNCTION_PARAMS),
            r matches Ok(v) ==> (v@.len() == 0 <==> old(self).at(old(self).lookup(token_type), token_type)),
        decreases old(self).state.tokens@.len() - old(self).current, 13int,
    {
        let mut arguments: Vec<Expr> = vec![];
        proof {
            lemma_wf_empty();
        }
        if !self.check(token_type) {
            loop
                invariant
                    old(self).moves_to(self),
                    self.cls@.len() == old(self).cls@.len(),
                    token_type != Token::EOF,
                    token_type == Token::RightParen ==> arguments@.len() <= MAX_FUNCTION_PARAMS,
                    self.state.errors@.len() == old(self).state.errors@.len() ==> wf_exprs(arguments@),
                    !old(self).at(old(self).lookup(token_type), token_type),
                ensures
                    old(self).moves_to(self),
                    self.cls@.len() == old(self).cls@.len(),
                    token_type == Token::RightParen ==> arguments@.len() <= MAX_FUNCTION_PARAMS,
                    self.state.errors@.len() == old(self).state.errors@.len() ==> wf_exprs(arguments@),
                    arguments@.len() > 0,
                decreases self.state.tokens@.len() - self.current,
            {
                if token_type == Token::RightParen && arguments.len() >= MAX_FUNCTION_PARAMS {
                    self.error_here("Max number of arguments is 255");
                    return Err(());
                }
                let e = self.expression()?;
                proof {
                    if self.state.errors@.len() == old(self).state.errors@.len() {
                        lemma_wf_exprs_push(arguments@, e);
                    }
                }
                arguments.push(e);
                if !self.matches(Token::Comma) {
                    break;
                }
                if self.check(token_type) {
                    break;
                }
            }
        }
        Ok(arguments)
    }

    /// `object[..]`, the opening bracket just read.
    fn access(&mut self, object: Expr) -> (r: Result<Expr, ()>)
        requires
            old(self).wf(),
            old(self).current > 0,
        ensures
            r matches Ok(e) ==> (old(self).no_new_errors(final(self)) && wf_expr(object) ==> wf_expr(e)),
            old(self).parsed(final(self), r is Ok),
            r is Ok ==> final(self).current > old(self).current,
            r matches Ok(e) ==> binding(e) >= 9,
            r matches Ok(e) ==> expr_mark(e) is None,
        decreases old(self).state.tokens@.len() - old(self).current, 14int,
    {
        let brace = self.previous();
        let mut slice = AccessExpr {
            object: Box::new(object),
            brace: brace,
            first: Box::new(Expr::Empty),
            first_colon: nil_token(),
            second: Box::new(Expr::Empty),
            second_colon: nil_token(),
            third: Box::new(Expr::Empty),
        };
        self.slice(&mut slice)?;
        let _ = self.consume(Token::RightBrace, "Expected ']' at the end of slice");
        Ok(Expr::Access(slice))
    }

    /// The parts of `[first:second:third]`, each of which may be absent.
    fn slice(&mut self, slice: &mut AccessExpr) -> (r: Result<(), ()>)
        requires
            old(self).wf(),
        ensures
            r is Ok && old(self).no_new_errors(final(self)) && wf_access(*old(slice)) ==> wf_access(*final(slice)),
            old(self).parsed(final(self), r is Ok),
            r is Ok ==> final(self).current > old(self).current,
        decreases old(self).state.tokens@.len() - old(self).current, 13int,
    {
        if self.matches(Token::Colon) {
            slice.first_colon = self.previous();
            if self.matches(Token::Colon) {
                slice.second_colon = self.previous();
                slice.third = Box::new(self.expression()?);
            } else {
                slice.second = Box::new(self.expression()?);
                if self.matches(Token::Colon) {
                    slice.second_colon = self.previous();
                    slice.third = Box::new(self.expression()?);
                }
            }
        } else {
            slice.first = Box::new(self.expression()?);
            if self.matches(Token::Colon) {
                slice.first_colon = self.previous();
                if self.matches(Token::Colon) {
                    slice.second_colon = self.previous();
                    slice.third = Box::new(self.expression()?);
                } else {
                    let closing = self.check(Token::RightBrace);
                    if !closing && !self.is_at_end() {
                        slice.second = Box::new(self.expression()?);
                        if self.matches(Token::Colon) {
                            slice.second_colon = self.previous();
                            let closing = self.check(Token::RightBrace);
                            if !closing && !self.is_at_end() {
                                slice.third = Box::new(self.expression()?);
                            }
                        }
                    }
                }
            }
        }
        Ok(())
    }

    fn primary(&mut self) -> (r: Result<Expr, ()>)
        requires
            old(self).wf(),
        ensures
            r matches Ok(e) ==> read_between(e, old(self).state.tokens@, old(self).current as int, final(self).current as int),
            r matches Ok(e) ==> (old(self).no_new_errors(final(self)) ==> wf_expr(e)),
            old(self).parsed(final(self), r is Ok),
            r is Ok ==> final(self).current > old(self).current,
            r matches Ok(e) ==> binding(e) >= 9,
            old(self).at_literal_line() ==> r == Ok::<Expr, ()>(old(self).literal_here()) && old(self).reads_one(final(self)),
        decreases old(self).state.tokens@.len() - old(self).current, 1int,
    {
        proof {
            lemma_literal_line(self.state.tokens@, self.current as int);
        }
        if self.matches_many(vec![Token::Number, Token::String]) {
            let tok = self.previous();
            if let Some(value) = tok.literal {
                return Ok(Expr::Literal(LiteralExpr { value: value }));
            }
            self.error_here("Undefined expression");
            return Err(());
        }
        if self.matches(Token::False) {
            return Ok(Expr::Literal(LiteralExpr { value: Literal::Boolean(false) }));
        }
        if self.matches(Token::True) {
            return Ok(Expr::Literal(LiteralExpr { value: Literal::Boolean(true) }));
        }
        if self.matches(Token::Nil) {
            return Ok(Expr::Literal(LiteralExpr { value: Literal::Nil }));
        }
        if self.matches(Token::Identifier) {
            let name = self.previous();
            proof {
                assert(self.state.tokens@[self.current - 1] == name);
            }
            return Ok(Expr::Var(VarExpr { name: Some(name) }));
        }
        if self.matches(Token::LeftParen) {
            let ghost c1: int = self.current as int;
            let expr = self.expression()?;
            let ghost c2: int = self.current as int;
            let _ = self.consume(Token::RightParen, "Expect ')' after expression");
            proof {
                lemma_read_widen(expr, self.state.tokens@, c1, c2, old(self).current as int, self.current as int);
            }
            return Ok(Expr::Grouping(GroupingExpr { expression: Box::new(expr) }));
        }
        if self.matches(Token::LeftBrace) {
            return self.list();
        }
        if self.matches(Token::LeftCurlyBrace) {
            return self.dictionary();
        }
        if self.matches(Token::Fn) {
            let f = self.fn_expr()?;
            return Ok(Expr::Fn(f));
        }
        if self.matches(Token::This) {
            let keyword = self.previous();
            proof {
                assert(self.state.tokens@[self.current - 1] == keyword);
            }
            return Ok(Expr::This(ThisExpr { keyword: keyword }));
        }
        if self.matches(Token::Super) {
            return self.super_expr();
        }
        if self.matches(Token::Newline) {
            return Ok(Expr::Empty);
        }
        let line = self.state.tokens[self.current].line;
        let message = String::from_str("Undefined expression");
        self.state.fatal_error(InterpreterError { message: message, line: line, pos: 0 });
        Err(())
    }

    fn list(&mut self) -> (r: Result<Expr, ()>)
        requires
            old(self).wf(),
        ensures
            r matches Ok(e) ==> (old(self).no_new_errors(final(self)) ==> wf_expr(e)),
            old(self).parsed(final(self), r is Ok),
            r is Ok ==> final(self).current > old(self).current,
            r matches Ok(e) ==> binding(e) >= 9,
            r matches Ok(e) ==> expr_mark(e) is None,
        decreases old(self).state.tokens@.len() - old(self).current, 14int,
    {
        let elements = self.arguments(Token::RightBrace)?;
        let brace = match self.consume(Token::RightBrace, "Expected ']' at end of list") {
            Some(t) => t,
            None => return Err(()),
        };
        Ok(Expr::List(ListExpr { elements: elements, brace: brace }))
    }

    fn dictionary(&mut self) -> (r: Result<Expr, ()>)
        requires
            old(self).wf(),
        ensures
            r matches Ok(e) ==> (old(self).no_new_errors(final(self)) ==> wf_expr(e)),
            old(self).parsed(final(self), r is Ok),
            r is Ok ==> final(self).current > old(self).current,
            r matches Ok(e) ==> (e matches Expr::Dictionary(d) && d.elements@.len() % 2 == 0),
        decreases old(self).state.tokens@.len() - old(self).current, 14int,
    {
        let elements = self.dict_elements()?;
        let curly_brace = match self.consume(Token::RightCurlyBrace, "Expected '}' at the end of dict") {
            Some(t) => t,
            None => return Err(()),
        };
        Ok(Expr::Dictionary(DictionaryExpr { elements: elements, curly_brace: curly_brace }))
    }

    /// Keys and values of a dictionary: keys at even positions, each followed by its value.
    fn dict_elements(&mut self) -> (r: Result<Vec<Expr>, ()>)
        requires
            old(self).wf(),
        ensures
            r matches Ok(v) ==> (old(self).no_new_errors(final(self)) ==> wf_exprs(v@)),
            old(self).parsed(final(self), r is Ok),
            r matches Ok(v) ==> v@.len() % 2 == 0,
            r matches Ok(v) ==> (v@.len() == 0 <==> old(self).at(
                old(self).lookup(Token::RightCurlyBrace),
                Token::RightCurlyBrace,
            )),
        decreases old(self).state.tokens@.len() - old(self).current, 13int,
    {
        let mut elements: Vec<Expr> = vec![];
        proof {
            lemma_wf_empty();
        }
        loop
            invariant_except_break
                elements@.len() == 0 ==> self.current == old(self).current && self.state == old(self).state,
            invariant
                old(self).moves_to(self),
                self.cls@.len() == old(self).cls@.len(),
                elements@.len() % 2 == 0,
                self.state.errors@.len() == old(self).state.errors@.len() ==> wf_exprs(elements@),
                elements@.len() > 0 ==> !old(self).at(old(self).lookup(Token::RightCurlyBrace), Token::RightCurlyBrace),
            ensures
                old(self).moves_to(self),
                self.cls@.len() == old(self).cls@.len(),
                elements@.len() % 2 == 0,
                self.state.errors@.len() == old(self).state.errors@.len() ==> wf_exprs(elements@),
                elements@.len() == 0 <==> old(self).at(old(self).lookup(Token::RightCurlyBrace), Token::RightCurlyBrace),
            decreases self.state.tokens@.len() - self.current,
        {
            if self.check(Token::RightCurlyBrace) {
                break;
            }
            let key = self.expression()?;
            let _ = self.consume(Token::Colon, "Expected ':' after key");
            let value = self.expression()?;
            proof {
                if self.state.errors@.len() == old(self).state.errors@.len() {
                    lemma_wf_exprs_push(elements@, key);
                    lemma_wf_exprs_push(elements@.push(key), value);
                }
            }
            elements.push(key);
            elements.push(value);
            if !self.matches(Token::Comma) {
                break;
            }
        }
        Ok(elements)
    }

    /// `super.method`, or `super` alone before a call, meaning the initializer.
    fn super_expr(&mut self) -> (r: Result<Expr, ()>)
        requires
            old(self).wf(),
            old(self).current > 0,
        ensures
            r matches Ok(e) ==> (old(self).no_new_errors(final(self)) ==> wf_expr(e)),
            old(self).parsed(final(self), r is Ok),
            r matches Ok(e) ==> binding(e) >= 9,
            r matches Ok(e) ==> expr_mark(e) is None,
        decreases old(self).state.tokens@.len() - old(self).current, 0int,
    {
        let keyword = self.previous();
        let method = if !self.check(Token::LeftParen) {
            let _ = self.consume(Token::Dot, "Keyword 'super' is only valid for property accessing");
            match self.consume(Token::Identifier, "Expected variable name") {
                Some(t) => t,
                None => return Err(()),
            }
        } else {
            TokenData { token: Token::Identifier, lexeme: String::from_str("init"), literal: None, line: keyword.line }
        };
        Ok(Expr::Super(SuperExpr { keyword: keyword, method: method }))
    }
}

impl Parser {
    /// Parses the tokens into statements appended to those of the state.
    ///
    /// Returns `Err(())` when the parse was abandoned, which records an error;
    /// on `Ok(())` the position is on an end-of-input token. Errors that do not
    /// abandon the parse are recorded too, and reading goes on.
    pub fn parse(&mut self) -> (r: Result<(), ()>)
        requires
            old(self).state.tokens@.len() > 0,
            old(self).state.tokens@.last().token == Token::EOF,
            old(self).current < old(self).state.tokens@.len(),
        ensures
            final(self).state.tokens == old(self).state.tokens,
            final(self).state.source == old(self).state.source,
            final(self).state.stmts@.len() >= old(self).state.stmts@.len(),
            final(self).state.stmts@.subrange(0, old(self).state.stmts@.len() as int) == old(self).state.stmts@,
            final(self).state.errors@.len() >= old(self).state.errors@.len(),
            final(self).state.errors@.subrange(0, old(self).state.errors@.len() as int) == old(self).state.errors@,
            r is Ok ==> final(self).current < final(self).state.tokens@.len(),
            r is Ok ==> final(self).state.tokens@[final(self).current as int].token == Token::EOF,
            r is Ok ==> final(self).cls@.len() == 0,
            old(self).state.tokens@[old(self).current as int].token == Token::EOF ==> r is Ok,
            simple_program(old(self).state.tokens@, old(self).current as int) ==> {
                &&& r is Ok
                &&& old(self).no_new_errors(final(self))
                &&& final(self).state.stmts@ == old(self).state.stmts@ + simple_stmts(
                    old(self).state.tokens@,
                    old(self).current as int,
                )
            },
            r is Ok && old(self).state.tokens@[old(self).current as int].token == Token::EOF ==> final(self).state.stmts
                == old(self).state.stmts && final(self).state.errors == old(self).state.errors,
            r is Ok && old(self).state.tokens@[old(self).current as int].token != Token::EOF ==> final(self).state.stmts@.len()
                > old(self).state.stmts@.len(),
            r is Ok ==> final(self).current >= old(self).current,
            r is Ok ==> final(self).state.stmts@.len() - old(self).state.stmts@.len() <= final(self).current - old(self).current,
            r is Err ==> final(self).state.errors@.len() > old(self).state.errors@.len(),
            r is Ok && final(self).state.errors@.len() == old(self).state.errors@.len() ==> wf_stmts(
                final(self).state.stmts@.subrange(old(self).state.stmts@.len() as int, final(self).state.stmts@.len() as int),
            ),
    {
        let _ = self.state.tokens.len();
        self.cls = vec![];
        self.enter_function(String::new());
        proof {
            lemma_wf_empty();
            assert(self.state.stmts@.subrange(old(self).state.stmts@.len() as int, self.state.stmts@.len() as int)
                =~= Seq::<Stmt>::empty());
        }
        loop
            invariant
                self.wf(),
                self.cls@.len() == 1,
                self.state.tokens == old(self).state.tokens,
                self.state.source == old(self).state.source,
                self.state.stmts@.len() >= old(self).state.stmts@.len(),
                forall|i: int| 0 <= i < old(self).state.stmts@.len() ==> self.state.stmts@[i] == old(self).state.stmts@[i],
                self.state.errors@.len() >= old(self).state.errors@.len(),
                forall|i: int| 0 <= i < old(self).state.errors@.len() ==> self.state.errors@[i] == old(self).state.errors@[i],
                self.state.errors@.len() == old(self).state.errors@.len() ==> wf_stmts(
                    self.state.stmts@.subrange(old(self).state.stmts@.len() as int, self.state.stmts@.len() as int),
                ),
                self.current >= old(self).current,
                self.state.stmts@.len() - old(self).state.stmts@.len() <= self.current - old(self).current,
                self.current == old(self).current ==> self.state.stmts == old(self).state.stmts && self.state.errors
                    == old(self).state.errors,
                self.current > old(self).current ==> self.state.stmts@.len() > old(self).state.stmts@.len(),
                old(self).state.tokens@[old(self).current as int].token == Token::EOF ==> self.current == old(self).current
                    && self.cls@.last().function@ == Seq::<char>::empty(),
                simple_program(old(self).state.tokens@, old(self).current as int) ==> {
                    &&& simple_program(self.state.tokens@, self.current as int)
                    &&& self.state.stmts@ + simple_stmts(self.state.tokens@, self.current as int) == old(self).state.stmts@
                        + simple_stmts(old(self).state.tokens@, old(self).current as int)
                    &&& self.state.errors@.len() == old(self).state.errors@.len()
                    &&& self.cls@.last().function@ == Seq::<char>::empty()
                },
            ensures
                self.wf(),
                self.cls@.len() == 1,
                self.state.tokens == old(self).state.tokens,
                self.state.source == old(self).state.source,
                self.state.stmts@.len() >= old(self).state.stmts@.len(),
                forall|i: int| 0 <= i < old(self).state.stmts@.len() ==> self.state.stmts@[i] == old(self).state.stmts@[i],
                self.state.errors@.len() >= old(self).state.errors@.len(),
                forall|i: int| 0 <= i < old(self).state.errors@.len() ==> self.state.errors@[i] == old(self).state.errors@[i],
                self.state.errors@.len() == old(self).state.errors@.len() ==> wf_stmts(
                    self.state.stmts@.subrange(old(self).state.stmts@.len() as int, self.state.stmts@.len() as int),
                ),
                self.state.tokens@[self.current as int].token == Token::EOF,
                self.current >= old(self).current,
                self.state.stmts@.len() - old(self).state.stmts@.len() <= self.current - old(self).current,
                self.current == old(self).current ==> self.state.stmts == old(self).state.stmts && self.state.errors
                    == old(self).state.errors,
                self.current > old(self).current ==> self.state.stmts@.len() > old(self).state.stmts@.len(),
                old(self).state.tokens@[old(self).current as int].token == Token::EOF ==> self.current == old(self).current
                    && self.cls@.last().function@ == Seq::<char>::empty(),
                simple_program(old(self).state.tokens@, old(self).current as int) ==> {
                    &&& simple_program(self.state.tokens@, self.current as int)
                    &&& self.state.stmts@ + simple_stmts(self.state.tokens@, self.current as int) == old(self).state.stmts@
                        + simple_stmts(old(self).state.tokens@, old(self).current as int)
                    &&& self.state.errors@.len() == old(self).state.errors@.len()
                    &&& self.cls@.last().function@ == Seq::<char>::empty()
                },
            decreases self.state.tokens@.len() - self.current,
        {
            if self.is_at_end() {
                break;
            }
            let ghost cur = self.current as int;
            let ghost toks = self.state.tokens@;
            let st = self.parse_stmt()?;
            let ghost before = self.state.stmts@;
            proof {
                if simple_program(old(self).state.tokens@, old(self).current as int) {
                    let n = line_len(toks, cur);
                    assert(simple_stmts(toks, cur) == seq![line_stmt(toks, cur)] + simple_stmts(toks, cur + n));
                    assert(before.push(st) + simple_stmts(toks, cur + n) =~= before + simple_stmts(toks, cur));
                }
            }
            proof {
                if self.state.errors@.len() == old(self).state.errors@.len() {
                    lemma_wf_stmts_push(before.subrange(old(self).state.stmts@.len() as int, before.len() as int), st);
                }
            }
            self.state.stmts.push(st);
            assert(self.state.stmts@.subrange(old(self).state.stmts@.len() as int, self.state.stmts@.len() as int)
                =~= before.subrange(old(self).state.stmts@.len() as int, before.len() as int).push(st));
        }
        assert(self.state.stmts@.subrange(0, old(self).state.stmts@.len() as int) =~= old(self).state.stmts@);
        assert(self.state.errors@.subrange(0, old(self).state.errors@.len() as int) =~= old(self).state.errors@);
        self.leave_function(String::new())?;
        Ok(())
    }

    fn parse_stmt(&mut self) -> (r: Result<Stmt, ()>)
        requires
            old(self).wf(),
        ensures
            r matches Ok(s) ==> (old(self).no_new_errors(final(self)) ==> wf_stmt(s)),
            old(self).parsed(final(self), r is Ok),
            r is Ok ==> final(self).current > old(self).current,
            old(self).at_simple_line() ==> {
                &&& r == Ok::<Stmt, ()>(line_stmt(old(self).state.tokens@, old(self).current as int))
                &&& final(self).current == old(self).current + line_len(old(self).state.tokens@, old(self).current as int)
                &&& old(self).no_new_errors(final(self))
                &&& final(self).cls == old(self).cls
            },
        decreases old(self).state.tokens@.len() - old(self).current, 22int,
    {
        proof {
            lemma_literal_line(self.state.tokens@, self.current as int);
        }
        self.declaration(true)
    }

    /// A declaration or a statement; with `expect_new_line`, followed by a newline.
    fn declaration(&mut self, expect_new_line: bool) -> (r: Result<Stmt, ()>)
        requires
            old(self).wf(),
        ensures
            r matches Ok(s) ==> (old(self).no_new_errors(final(self)) ==> wf_stmt(s)),
            old(self).parsed(final(self), r is Ok),
            r is Ok ==> final(self).current > old(self).current,
            old(self).at_simple_line() && expect_new_line ==> {
                &&& r == Ok::<Stmt, ()>(line_stmt(old(self).state.tokens@, old(self).current as int))
                &&& final(self).current == old(self).current + line_len(old(self).state.tokens@, old(self).current as int)
                &&& old(self).no_new_errors(final(self))
                &&& final(self).cls == old(self).cls
            },
        decreases old(self).state.tokens@.len() - old(self).current, 20int,
    {
        proof {
            lemma_literal_line(self.state.tokens@, self.current as int);
        }
        let s = if self.matches(Token::Class) {
            self.class()?
        } else if self.matches(Token::Fn) {
            Stmt::Fn(self.fn_stmt()?)
        } else if self.matches(Token::Let) {
            self.let_stmt()?
        } else {
            self.statement()?
        };
        if expect_new_line {
            let _ = self.consume(Token::Newline, "Expected new line");
        }
        Ok(s)
    }

    /// A class, its keyword just read: name, optional superclass, methods and
    /// static methods (those preceded by `class`) between braces.
    fn class(&mut self) -> (r: Result<Stmt, ()>)
        requires
            old(self).wf(),
        ensures
            r matches Ok(s) ==> (old(self).no_new_errors(final(self)) ==> wf_stmt(s)),
            old(self).parsed(final(self), r is Ok),
            r matches Ok(st) ==> (st matches Stmt::Class(c) && (c.name is Some <==> old(self).at(
                old(self).lookup(Token::Identifier),
                Token::Identifier,
            )) && (c.name matches Some(n) ==> n == old(self).state.tokens@[old(self).lookup(Token::Identifier)])),
        decreases old(self).state.tokens@.len() - old(self).current, 18int,
    {
        let name = self.consume(Token::Identifier, "Expected variable name");
        let superclass = if self.matches(Token::Less) {
            let class = self.consume(Token::Identifier, "Expected variable name");
            Some(VarExpr { name: class })
        } else {
            None
        };
        let _ = self.consume(Token::LeftCurlyBrace, "Expected '{' at this position");
        let mut methods: Vec<FnStmt> = vec![];
        let mut static_methods: Vec<FnStmt> = vec![];
        proof {
            lemma_wf_empty();
        }
        loop
            invariant
                old(self).moves_to(self),
                self.cls@.len() == old(self).cls@.len(),
                self.state.errors@.len() == old(self).state.errors@.len() ==> wf_fn_stmts(methods@) && wf_fn_stmts(static_methods@),
                name is None ==> self.state.errors@.len() > old(self).state.errors@.len(),
                (superclass matches Some(v) && v.name is None) ==> self.state.errors@.len() > old(self).state.errors@.len(),
            ensures
                old(self).moves_to(self),
                self.cls@.len() == old(self).cls@.len(),
                self.state.errors@.len() == old(self).state.errors@.len() ==> wf_fn_stmts(methods@) && wf_fn_stmts(static_methods@),
                name is None ==> self.state.errors@.len() > old(self).state.errors@.len(),
                (superclass matches Some(v) && v.name is None) ==> self.state.errors@.len() > old(self).state.errors@.len(),
            decreases self.state.tokens@.len() - self.current,
        {
            if self.check(Token::RightCurlyBrace) {
                break;
            }
            if self.is_at_end() {
                break;
            }
            if self.matches(Token::Class) {
                let f = self.fn_stmt()?;
                proof {
                    if self.state.errors@.len() == old(self).state.errors@.len() {
                        lemma_wf_fn_stmts_push(static_methods@, f);
                    }
                }
                static_methods.push(f);
            } else {
                let f = self.fn_stmt()?;
                proof {
                    if self.state.errors@.len() == old(self).state.errors@.len() {
                        lemma_wf_fn_stmts_push(methods@, f);
                    }
                }
                methods.push(f);
            }
        }
        let _ = self.consume(Token::RightCurlyBrace, "Expected '}' at this position");
        let c = ClassStmt { name: name, methods: methods, static_methods: static_methods, superclass: superclass };
        proof {
            if self.state.errors@.len() == old(self).state.errors@.len() {
                assert(c.name is Some);
                assert(c.superclass matches Some(v) ==> v.name is Some);
                assert(wf_fn_stmts(c.methods@));
                assert(wf_fn_stmts(c.static_methods@));
                assert(wf_stmt(Stmt::Class(c)));
            }
        }
        Ok(Stmt::Class(c))
    }

    /// The parameters of a function, up to the closing parenthesis.
    fn parameters(&mut self, msg: &str) -> (r: Result<Vec<TokenData>, ()>)
        requires
            old(self).wf(),
        ensures
            old(self).parsed(final(self), r is Ok),
            final(self).cls == old(self).cls,
            r matches Ok(v) ==> (v@.len() == 0 <==> old(self).at(old(self).lookup(Token::RightParen), Token::RightParen)),
            r matches Ok(v) ==> forall|k: int| 0 <= k < v@.len() ==> (#[trigger] v@[k]).token == Token::Identifier,
            r matches Ok(v) ==> v@.len() <= MAX_FUNCTION_PARAMS + 1,
        decreases old(self).state.tokens@.len() - old(self).current, 0int,
    {
        let mut params: Vec<TokenData> = vec![];
        if !self.check(Token::RightParen) {
            loop
                invariant
                    old(self).moves_to(self),
                    self.cls == old(self).cls,
                    !old(self).at(old(self).lookup(Token::RightParen), Token::RightParen),
                    forall|k: int| 0 <= k < params@.len() ==> (#[trigger] params@[k]).token == Token::Identifier,
                    params@.len() <= MAX_FUNCTION_PARAMS + 1,
                ensures
                    old(self).moves_to(self),
                    self.cls == old(self).cls,
                    forall|k: int| 0 <= k < params@.len() ==> (#[trigger] params@[k]).token == Token::Identifier,
                    params@.len() <= MAX_FUNCTION_PARAMS + 1,
                    params@.len() > 0,
                decreases self.state.tokens@.len() - self.current,
            {
                if params.len() > MAX_FUNCTION_PARAMS {
                    self.error_here("Max number of parameters is 255");
                    return Err(());
                }
                let p = match self.consume(Token::Identifier, msg) {
                    Some(t) => t,
                    None => return Err(()),
                };
                params.push(p);
                if !self.matches(Token::Comma) {
                    break;
                }
            }
        }
        Ok(params)
    }

    /// The body of a function: a block, or a single expression statement.
    fn fn_body(&mut self) -> (r: Result<Vec<Stmt>, ()>)
        requires
            old(self).wf(),
        ensures
            r matches Ok(v) ==> (old(self).no_new_errors(final(self)) ==> wf_stmts(v@)),
            old(self).parsed(final(self), r is Ok),
            r is Ok ==> final(self).current > old(self).current,
        decreases old(self).state.tokens@.len() - old(self).current, 16int,
    {
        if self.matches(Token::LeftCurlyBrace) {
            self.block()
        } else {
            let s = self.expression_stmt()?;
            Ok(vec![s])
        }
    }

    /// A named function, its keyword just read.
    fn fn_stmt(&mut self) -> (r: Result<FnStmt, ()>)
        requires
            old(self).wf(),
        ensures
            r matches Ok(f) ==> (old(self).no_new_errors(final(self)) ==> wf_fn_stmt(f)),
            old(self).parsed(final(self), r is Ok),
            r is Ok ==> final(self).current > old(self).current,
        decreases old(self).state.tokens@.len() - old(self).current, 17int,
    {
        let name = match self.consume(Token::Identifier, "Expected function name") {
            Some(t) => t,
            None => return Err(()),
        };
        self.enter_function(name.lexeme.clone());
        let _ = self.consume(Token::LeftParen, "Expect '(' after function name");
        let params = self.parameters("Expected function parameter")?;
        let _ = self.consume(Token::RightParen, "Expect ')' after expression");
        let body = self.fn_body()?;
        self.leave_function(name.lexeme.clone())?;
        Ok(FnStmt { name: name, params: params, body: body })
    }

    /// An anonymous function, its keyword just read.
    fn fn_expr(&mut self) -> (r: Result<FnExpr, ()>)
        requires
            old(self).wf(),
        ensures
            r matches Ok(f) ==> (old(self).no_new_errors(final(self)) ==> wf_stmts(f.body@)),
            old(self).parsed(final(self), r is Ok),
            r is Ok ==> final(self).current > old(self).current,
        decreases old(self).state.tokens@.len() - old(self).current, 17int,
    {
        let _ = self.consume(Token::LeftParen, "Expected '(' after function name");
        let mut lambda_name = String::from_str("lambda");
        push_decimal(&mut lambda_name, self.cls.len());
        self.enter_function(lambda_name.clone());
        let params = self.parameters("Expect function parameter")?;
        let _ = self.consume(Token::RightParen, "Expect ')' after expression");
        let body = self.fn_body()?;
        self.leave_function(lambda_name)?;
        Ok(FnExpr { params: params, body: body })
    }

    /// A variable declaration, its keyword just read.
    fn let_stmt(&mut self) -> (r: Result<Stmt, ()>)
        requires
            old(self).wf(),
        ensures
            r matches Ok(s) ==> (old(self).no_new_errors(final(self)) ==> wf_stmt(s)),
            old(self).parsed(final(self), r is Ok),
            r is Ok ==> final(self).current > old(self).current,
            old(self).at_let_rest() ==> {
                &&& r == Ok::<Stmt, ()>(
                    Stmt::Let(
                        LetStmt {
                            name: old(self).state.tokens@[old(self).current as int],
                            initializer: Some(literal_expr(old(self).state.tokens@[old(self).current + 2])),
                        },
                    ),
                )
                &&& final(self).current == old(self).current + 3
                &&& old(self).no_new_errors(final(self))
                &&& final(self).cls == old(self).cls
            },
        decreases old(self).state.tokens@.len() - old(self).current, 16int,
    {
        let name = match self.consume(Token::Identifier, "Expected variable name") {
            Some(t) => t,
            None => return Err(()),
        };
        let initializer = if self.matches(Token::Equal) {
            Some(self.expression()?)
        } else {
            None
        };
        Ok(Stmt::Let(LetStmt { name: name, initializer: initializer }))
    }

    fn statement(&mut self) -> (r: Result<Stmt, ()>)
        requires
            old(self).wf(),
        ensures
            r matches Ok(s) ==> (old(self).no_new_errors(final(self)) ==> wf_stmt(s)),
            old(self).parsed(final(self), r is Ok),
            r is Ok ==> final(self).current > old(self).current,
            old(self).at_literal_line() ==> r == Ok::<Stmt, ()>(literal_stmt(old(self).state.tokens@, old(self).current as int)) && old(self).reads_one(final(self)),
        decreases old(self).state.tokens@.len() - old(self).current, 19int,
    {
        proof {
            lemma_literal_line(self.state.tokens@, self.current as int);
        }
        if self.matches(Token::For) {
            return self.for_loop();
        }
        if self.matches(Token::Try) {
            return self.try_catch();
        }
        if self.matches(Token::If) {
            return self.if_stmt();
        }
        if self.matches(Token::Return) {
            return self.ret();
        }
        if self.matches(Token::Break) {
            return Ok(self.brk());
        }
        if self.matches(Token::Continue) {
            return Ok(self.cont());
        }
        if self.matches(Token::While) {
            return self.while_stmt();
        }
        if self.matches(Token::LeftCurlyBrace) {
            let stmts = self.block()?;
            return Ok(Stmt::Block(BlockStmt { stmts: stmts }));
        }
        self.expression_stmt()
    }

    /// A `for` loop, its keyword just read: `for a, b in collection body` or
    /// `for init; condition; increment body`.
    fn for_loop(&mut self) -> (r: Result<Stmt, ()>)
        requires
            old(self).wf(),
            old(self).current > 0,
        ensures
            r matches Ok(s) ==> (old(self).no_new_errors(final(self)) ==> wf_stmt(s)),
            old(self).parsed(final(self), r is Ok),
            r matches Ok(st) ==> (st matches Stmt::EnhancedFor(f) && f.keyword == old(self).state.tokens@[old(self).current - 1]) || (st matches Stmt::ClassicFor(f)
                && f.keyword == old(self).state.tokens@[old(self).current - 1]),
            r matches Ok(st) ==> (st is EnhancedFor <==> old(self).at(old(self).lookup(Token::Identifier), Token::Identifier)),
            r matches Ok(st) ==> (st matches Stmt::ClassicFor(f) ==> for_parts_read(
                f,
                old(self).state.tokens@,
                old(self).current as int,
                final(self).current as int,
                !old(self).no_new_errors(final(self)),
            )),
            r matches Ok(st) ==> (st matches Stmt::ClassicFor(f) ==> (f.initializer is Some <==> old(self).at(
                old(self).lookup(Token::Let),
                Token::Let,
            ))),
        decreases old(self).state.tokens@.len() - old(self).current, 17int,
    {
        let keyword = self.previous();
        self.enter_loop();
        if self.check(Token::Identifier) {
            return self.enhanced_for(keyword);
        }
        let initializer = if self.matches(Token::Semicolon) {
            None
        } else if self.matches(Token::Let) {
            let aux = self.let_stmt()?;
            let _ = self.consume(Token::Semicolon, "Expected semicolon");
            Some(Box::new(aux))
        } else {
            self.error_here("Empty expression or let was expected at this position");
            None
        };
        let ghost c0: int = self.current as int;
        let ghost errs0: int = self.state.errors@.len() as int;
        let condition = self.expression()?;
        let ghost c1: int = self.current as int;
        let semicolon = self.consume(Token::Semicolon, "Expected semicolon");
        let ghost m: int = self.current as int;
        let increment = self.expression()?;
        let ghost c2: int = self.current as int;
        let body = self.declaration(false)?;
        self.leave_loop();
        proof {
            let toks = old(self).state.tokens@;
            lemma_read_widen(condition, toks, c0, c1, old(self).current as int, m);
            lemma_read_widen(increment, toks, m, c2, m, self.current as int);
            if semicolon is Some {
                assert(toks[m - 1].token == Token::Semicolon);
            } else {
                assert(self.state.errors@.len() > old(self).state.errors@.len());
            }
            assert(read_between(condition, toks, old(self).current as int, m));
        }
        Ok(
            Stmt::ClassicFor(
                ClassicForStmt {
                    keyword: keyword,
                    initializer: initializer,
                    condition: condition,
                    increment: increment,
                    body: Box::new(body),
                },
            ),
        )
    }

    /// `for a, b in collection body`, its keyword just read. The loop that
    /// `for_loop` entered (counted for `break` and `continue`) is not left
    /// here: the statements after such a loop still count as inside a loop.
    fn enhanced_for(&mut self, keyword: TokenData) -> (r: Result<Stmt, ()>)
        requires
            old(self).wf(),
            old(self).state.tokens@[old(self).current as int].token == Token::Identifier,
        ensures
            r matches Ok(s) ==> (old(self).no_new_errors(final(self)) ==> wf_stmt(s)),
            old(self).parsed(final(self), r is Ok),
            r matches Ok(st) ==> (st matches Stmt::EnhancedFor(f) && f.keyword == keyword && f.identifiers@.len() > 0
                && forall|k: int| 0 <= k < f.identifiers@.len() ==> (#[trigger] f.identifiers@[k]).token == Token::Identifier),
        decreases old(self).state.tokens@.len() - old(self).current, 16int,
    {
        let mut identifiers: Vec<TokenData> = vec![];
        loop
            invariant
                old(self).moves_to(self),
                self.cls@.len() == old(self).cls@.len(),
                old(self).state.tokens@[old(self).current as int].token == Token::Identifier,
                identifiers@.len() == 0 ==> self.current == old(self).current,
                forall|k: int| 0 <= k < identifiers@.len() ==> (#[trigger] identifiers@[k]).token == Token::Identifier,
            ensures
                old(self).moves_to(self),
                self.cls@.len() == old(self).cls@.len(),
                identifiers@.len() > 0,
                forall|k: int| 0 <= k < identifiers@.len() ==> (#[trigger] identifiers@[k]).token == Token::Identifier,
            decreases self.state.tokens@.len() - self.current,
        {
            proof {
                if identifiers@.len() == 0 {
                    assert(skip_newlines(self.state.tokens@, self.current as int) == self.current);
                }
            }
            if !self.matches(Token::Identifier) {
                break;
            }
            identifiers.push(self.previous());
            let _ = self.matches(Token::Comma);
        }
        let _ = self.consume(Token::In, "Expected 'in'");
        let collection = self.expression()?;
        let body = self.declaration(false)?;
        Ok(
            Stmt::EnhancedFor(
                EnhancedForStmt {
                    keyword: keyword,
                    identifiers: identifiers,
                    collection: collection,
                    body: Box::new(body),
                },
            ),
        )
    }

    /// `try body catch name body`, the `try` just read.
    fn try_catch(&mut self) -> (r: Result<Stmt, ()>)
        requires
            old(self).wf(),
        ensures
            r matches Ok(s) ==> (old(self).no_new_errors(final(self)) ==> wf_stmt(s)),
            old(self).parsed(final(self), r is Ok),
            r matches Ok(st) ==> (st matches Stmt::TryCatch(t) && t.name.token == Token::Identifier && exists|k: int|
                old(self).current <= k < final(self).current && t.name == #[trigger] final(self).state.tokens@[k]),
        decreases old(self).state.tokens@.len() - old(self).current, 21int,
    {
        let try_body = self.declaration(false)?;
        let _ = self.consume(Token::Catch, "A catch block was expected at this position");
        let ghost at_name = self.lookup(Token::Identifier);
        let name = match self.consume(Token::Identifier, "Expected variable name") {
            Some(t) => t,
            None => return Err(()),
        };
        let catch_body = self.declaration(false)?;
        assert(name == self.state.tokens@[at_name]);
        Ok(Stmt::TryCatch(TryCatchStmt { try_body: Box::new(try_body), name: name, catch_body: Box::new(catch_body) }))
    }

    /// `if`, its keyword just read, with its `elif` and `else` branches.
    fn if_stmt(&mut self) -> (r: Result<Stmt, ()>)
        requires
            old(self).wf(),
            old(self).current > 0,
        ensures
            r matches Ok(s) ==> (old(self).no_new_errors(final(self)) ==> wf_stmt(s)),
            old(self).parsed(final(self), r is Ok),
            r matches Ok(st) ==> (st matches Stmt::If(i) && i.keyword == old(self).state.tokens@[old(self).current - 1]),
        decreases old(self).state.tokens@.len() - old(self).current, 16int,
    {
        let keyword = self.previous();
        let condition = self.expression()?;
        let _ = self.consume(Token::LeftCurlyBrace, "Expected '{' at this position");
        let then_branch = self.block()?;
        let mut elifs: Vec<ElifBranch> = vec![];
        proof {
            lemma_wf_empty();
        }
        loop
            invariant
                old(self).moves_to(self),
                self.cls@.len() == old(self).cls@.len(),
                self.current > old(self).current,
                self.state.errors@.len() == old(self).state.errors@.len() ==> wf_elifs(elifs@),
                self.state.errors@.len() == old(self).state.errors@.len() ==> wf_expr(condition) && wf_stmts(then_branch@),
            ensures
                old(self).moves_to(self),
                self.cls@.len() == old(self).cls@.len(),
                self.current > old(self).current,
                self.state.errors@.len() == old(self).state.errors@.len() ==> wf_elifs(elifs@),
                self.state.errors@.len() == old(self).state.errors@.len() ==> wf_expr(condition) && wf_stmts(then_branch@),
            decreases self.state.tokens@.len() - self.current,
        {
            if !self.matches(Token::Elif) {
                break;
            }
            let condition = self.expression()?;
            let _ = self.consume(Token::LeftCurlyBrace, "Expected '{' at this position");
            let then_branch = self.block()?;
            let branch = ElifBranch { condition: condition, then_branch: then_branch };
            proof {
                if self.state.errors@.len() == old(self).state.errors@.len() {
                    lemma_wf_elifs_push(elifs@, branch);
                }
            }
            elifs.push(branch);
        }
        let mut else_branch: Vec<Stmt> = vec![];
        if self.matches(Token::Else) {
            let _ = self.consume(Token::LeftCurlyBrace, "Expected '{' at this position");
            loop
                invariant
                    old(self).moves_to(self),
                    self.cls@.len() == old(self).cls@.len(),
                    self.current > old(self).current,
                    self.state.errors@.len() == old(self).state.errors@.len() ==> wf_stmts(else_branch@),
                    self.state.errors@.len() == old(self).state.errors@.len() ==> wf_expr(condition) && wf_stmts(then_branch@) && wf_elifs(elifs@),
                ensures
                    old(self).moves_to(self),
                    self.cls@.len() == old(self).cls@.len(),
                    self.current > old(self).current,
                    self.state.errors@.len() == old(self).state.errors@.len() ==> wf_stmts(else_branch@),
                    self.state.errors@.len() == old(self).state.errors@.len() ==> wf_expr(condition) && wf_stmts(then_branch@) && wf_elifs(elifs@),
                decreases self.state.tokens@.len() - self.current,
            {
                if self.check(Token::RightCurlyBrace) {
                    break;
                }
                let s = self.declaration(false)?;
                proof {
                    if self.state.errors@.len() == old(self).state.errors@.len() {
                        lemma_wf_stmts_push(else_branch@, s);
                    }
                }
                else_branch.push(s);
            }
            let _ = self.consume(Token::RightCurlyBrace, "Expected '}' at this position");
        }
        let st = IfStmt {
            keyword: keyword,
            condition: condition,
            then_branch: then_branch,
            elifs: elifs,
            else_branch: else_branch,
        };
        proof {
            if self.state.errors@.len() == old(self).state.errors@.len() {
                assert(wf_expr(st.condition));
                assert(wf_stmts(st.then_branch@));
                assert(wf_elifs(st.elifs@));
                assert(wf_stmts(st.else_branch@));
                assert(wf_stmt(Stmt::If(st)));
            }
        }
        Ok(Stmt::If(st))
    }

    /// `return`, its keyword just read, with a value unless a newline follows.
    fn ret(&mut self) -> (r: Result<Stmt, ()>)
        requires
            old(self).wf(),
            old(self).current > 0,
        ensures
            r matches Ok(s) ==> (old(self).no_new_errors(final(self)) ==> wf_stmt(s)),
            old(self).parsed(final(self), r is Ok),
            r matches Ok(st) ==> (st matches Stmt::Return(rs) && rs.keyword == old(self).state.tokens@[old(self).current - 1] && (rs.value is None
                <==> old(self).at(old(self).lookup(Token::Newline), Token::Newline))),
        decreases old(self).state.tokens@.len() - old(self).current, 16int,
    {
        let keyword = self.previous();
        let value = if !self.check(Token::Newline) {
            Some(self.expression()?)
        } else {
            None
        };
        Ok(Stmt::Return(ReturnStmt { keyword: keyword, value: value }))
    }

    /// `break`, its keyword just read; an error outside a loop.
    fn brk(&mut self) -> (r: Stmt)
        requires
            old(self).wf(),
            old(self).current > 0,
        ensures
            old(self).moves_to(final(self)),
            final(self).cls == old(self).cls,
            final(self).current == old(self).current,
            r is Break,
            final(self).state.errors@.len() == old(self).state.errors@.len() + if old(self).cls@.last().loop_count == 0 {
                1int
            } else {
                0int
            },
    {
        let keyword = self.previous();
        if !self.inside_loop() {
            let message = String::from_str("Statement only allowed for use inside loop");
            self.state.set_error(InterpreterError { message: message, line: keyword.line, pos: 0 });
        }
        Stmt::Break(BreakStmt { keyword: keyword })
    }

    /// `continue`, its keyword just read; an error outside a loop.
    fn cont(&mut self) -> (r: Stmt)
        requires
            old(self).wf(),
            old(self).current > 0,
        ensures
            old(self).moves_to(final(self)),
            final(self).cls == old(self).cls,
            final(self).current == old(self).current,
            r is Continue,
            final(self).state.errors@.len() == old(self).state.errors@.len() + if old(self).cls@.last().loop_count == 0 {
                1int
            } else {
                0int
            },
    {
        let keyword = self.previous();
        if !self.inside_loop() {
            let message = String::from_str("Statement only allowed for use inside loop");
            self.state.set_error(InterpreterError { message: message, line: keyword.line, pos: 0 });
        }
        Stmt::Continue(ContinueStmt { keyword: keyword })
    }

    /// `while`, its keyword just read.
    fn while_stmt(&mut self) -> (r: Result<Stmt, ()>)
        requires
            old(self).wf(),
            old(self).current > 0,
        ensures
            r matches Ok(s) ==> (old(self).no_new_errors(final(self)) ==> wf_stmt(s)),
            old(self).parsed(final(self), r is Ok),
            r matches Ok(st) ==> (st matches Stmt::While(w) && w.keyword == old(self).state.tokens@[old(self).current - 1]),
        decreases old(self).state.tokens@.len() - old(self).current, 16int,
    {
        let keyword = self.previous();
        self.enter_loop();
        let condition = self.expression()?;
        let body = self.declaration(false)?;
        self.leave_loop();
        Ok(Stmt::While(WhileStmt { keyword: keyword, condition: condition, body: Box::new(body) }))
    }

    /// Statements up to the closing brace, the opening one just read.
    fn block(&mut self) -> (r: Result<Vec<Stmt>, ()>)
        requires
            old(self).wf(),
        ensures
            r matches Ok(v) ==> (old(self).no_new_errors(final(self)) ==> wf_stmts(v@)),
            old(self).parsed(final(self), r is Ok),
            r is Ok ==> final(self).current > old(self).current,
        decreases old(self).state.tokens@.len() - old(self).current, 21int,
    {
        let mut stmts: Vec<Stmt> = vec![];
        proof {
            lemma_wf_empty();
        }
        loop
            invariant
                old(self).moves_to(self),
                self.cls@.len() == old(self).cls@.len(),
                self.state.errors@.len() == old(self).state.errors@.len() ==> wf_stmts(stmts@),
            ensures
                old(self).moves_to(self),
                self.cls@.len() == old(self).cls@.len(),
                self.state.errors@.len() == old(self).state.errors@.len() ==> wf_stmts(stmts@),
                self.current > old(self).current,
            decreases self.state.tokens@.len() - self.current,
        {
            if self.matches(Token::RightCurlyBrace) {
                break;
            }
            let s = self.declaration(false)?;
            proof {
                if self.state.errors@.len() == old(self).state.errors@.len() {
                    lemma_wf_stmts_push(stmts@, s);
                }
            }
            stmts.push(s);
        }
        Ok(stmts)
    }

    /// An expression as a statement; an empty one when the line is empty.
    fn expression_stmt(&mut self) -> (r: Result<Stmt, ()>)
        requires
            old(self).wf(),
        ensures
            r matches Ok(s) ==> (old(self).no_new_errors(final(self)) ==> wf_stmt(s)),
            old(self).parsed(final(self), r is Ok),
            r is Ok ==> final(self).current > old(self).current,
            old(self).at_literal_line() ==> r == Ok::<Stmt, ()>(literal_stmt(old(self).state.tokens@, old(self).current as int)) && old(self).reads_one(final(self)),
        decreases old(self).state.tokens@.len() - old(self).current, 15int,
    {
        proof {
            lemma_literal_line(self.state.tokens@, self.current as int);
        }
        let expr = self.expression()?;
        if !expr.is_empty() {
            let last = self.previous();
            Ok(Stmt::Expr(ExprStmt { last: Some(last), expression: expr }))
        } else {
            Ok(Stmt::Expr(ExprStmt { last: None, expression: Expr::Empty }))
        }
    }
}

} // verus!
