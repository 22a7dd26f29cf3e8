//! Which syntax trees are well formed: what the parser builds when it reports
//! no error, and what the compiler expects.

use vstd::prelude::*;
use crate::expr::{AccessExpr, AssignExpr, BinaryExpr, CallExpr, DictionaryExpr, Expr, FnExpr, GetExpr, GroupingExpr, ListExpr, LiteralExpr, LogicalExpr, SetExpr, SuperExpr, ThisExpr, UnaryExpr, VarExpr};
use crate::stmt::{BlockStmt, BreakStmt, ClassStmt, ClassicForStmt, ContinueStmt, ElifBranch, EnhancedForStmt, ExprStmt, FnStmt, IfStmt, LetStmt, ReturnStmt, Stmt, TryCatchStmt, WhileStmt};
use crate::token::Token;

verus! {

/// The operators of binary expressions.
pub open spec fn is_binary_operator(t: Token) -> bool {
    ||| t == Token::Plus
    ||| t == Token::Minus
    ||| t == Token::Slash
    ||| t == Token::Mod
    ||| t == Token::Star
    ||| t == Token::Power
    ||| t == Token::EqualEqual
    ||| t == Token::BangEqual
    ||| t == Token::Greater
    ||| t == Token::GreaterEqual
    ||| t == Token::Less
    ||| t == Token::LessEqual
}

/// The operators of logical expressions.
pub open spec fn is_logical_operator(t: Token) -> bool {
    t == Token::And || t == Token::Or
}

/// The operators of unary expressions.
pub open spec fn is_unary_operator(t: Token) -> bool {
    t == Token::Not || t == Token::Minus
}

/// How tightly a binary operator binds: equality 3, comparisons 4, `+` and
/// `-` 5, `*`, `/` and `%` 6, `^` 7.
pub open spec fn binary_binding(t: Token) -> int {
    if t == Token::EqualEqual || t == Token::BangEqual {
        3
    } else if t == Token::Greater || t == Token::GreaterEqual || t == Token::Less || t == Token::LessEqual {
        4
    } else if t == Token::Plus || t == Token::Minus {
        5
    } else if t == Token::Slash || t == Token::Mod || t == Token::Star {
        6
    } else {
        7
    }
}

/// How tightly the operator at the top of `e` binds: `or` 1, `and` 2, the
/// binary operators 3 to 7 (see `binary_binding`), `not` and `-` 8; an
/// assignment 0; an expression with no operator at its top 9.
pub open spec fn binding(e: Expr) -> int {
    match e {
        Expr::Logical(l) => if l.operator.token == Token::Or { 1 } else { 2 },
        Expr::Binary(b) => binary_binding(b.operator.token),
        Expr::Unary(_) => 8,
        Expr::Assign(_) => 0,
        Expr::SetProp(_) => 0,
        _ => 9,
    }
}

/// Every expression of `es` is well formed.
pub open spec fn wf_exprs(es: Seq<Expr>) -> bool
    decreases es,
{
    forall|i: int| 0 <= i < es.len() ==> wf_expr(#[trigger] es[i])
}

/// Every statement of `ss` is well formed.
pub open spec fn wf_stmts(ss: Seq<Stmt>) -> bool
    decreases ss,
{
    forall|i: int| 0 <= i < ss.len() ==> wf_stmt(#[trigger] ss[i])
}

/// The parts of an access are well formed.
pub open spec fn wf_access(a: AccessExpr) -> bool {
    &&& wf_expr(*a.object)
    &&& wf_expr(*a.first)
    &&& wf_expr(*a.second)
    &&& wf_expr(*a.third)
}

/// A well formed expression: operators of their kind, nested by precedence
/// (the operand on the left of a binary or logical operator binds at least as
/// tightly as it, so that operators of one level group to the left; the
/// operand on the right, and that of a unary operator, binds more tightly),
/// variables with a name, dictionaries of key and value pairs, calls of at
/// most 255 arguments.
pub open spec fn wf_expr(e: Expr) -> bool
    decreases e,
{
    match e {
        Expr::Fn(f) => wf_stmts(f.body@),
        Expr::Var(v) => v.name is Some,
        Expr::List(l) => wf_exprs(l.elements@),
        Expr::Dictionary(d) => d.elements@.len() % 2 == 0 && wf_exprs(d.elements@),
        Expr::Assign(a) => {
            &&& wf_expr(*a.value)
            &&& match a.access {
                Some(acc) => wf_expr(*acc.object) && wf_expr(*acc.first) && wf_expr(*acc.second) && wf_expr(*acc.third),
                None => true,
            }
        },
        Expr::Access(a) => wf_expr(*a.object) && wf_expr(*a.first) && wf_expr(*a.second) && wf_expr(*a.third),
        Expr::Binary(b) => {
            &&& is_binary_operator(b.operator.token)
            &&& binding(*b.left) >= binary_binding(b.operator.token)
            &&& binding(*b.right) > binary_binding(b.operator.token)
            &&& wf_expr(*b.left)
            &&& wf_expr(*b.right)
        },
        Expr::Call(c) => c.arguments@.len() <= 255 && wf_expr(*c.callee) && wf_exprs(c.arguments@),
        Expr::Get(g) => wf_expr(*g.object),
        Expr::SetProp(st) => {
            &&& wf_expr(*st.object)
            &&& wf_expr(*st.value)
            &&& match st.access {
                Some(acc) => wf_expr(*acc.object) && wf_expr(*acc.first) && wf_expr(*acc.second) && wf_expr(*acc.third),
                None => true,
            }
        },
        Expr::Super(_) => true,
        Expr::Grouping(g) => wf_expr(*g.expression),
        Expr::Literal(_) => true,
        Expr::Logical(l) => {
            &&& is_logical_operator(l.operator.token)
            &&& binding(*l.left) >= binding(e)
            &&& binding(*l.right) > binding(e)
            &&& wf_expr(*l.left)
            &&& wf_expr(*l.right)
        },
        Expr::This(_) => true,
        Expr::Unary(u) => is_unary_operator(u.operator.token) && binding(*u.right) >= 8 && wf_expr(*u.right),
        Expr::Empty => true,
    }
}

/// The body of a function is well formed.
pub open spec fn wf_fn_stmt(f: FnStmt) -> bool
    decreases f,
{
    wf_stmts(f.body@)
}

/// Every function of `fs` is well formed.
pub open spec fn wf_fn_stmts(fs: Seq<FnStmt>) -> bool
    decreases fs,
{
    forall|i: int| 0 <= i < fs.len() ==> wf_fn_stmt(#[trigger] fs[i])
}

/// Every `elif` branch of `bs` is well formed.
pub open spec fn wf_elifs(bs: Seq<ElifBranch>) -> bool
    decreases bs,
{
    forall|i: int| 0 <= i < bs.len() ==> wf_expr((#[trigger] bs[i]).condition) && wf_stmts(bs[i].then_branch@)
}

/// A well formed statement: its parts well formed, classes named (and their
/// superclass too), enhanced for loops with at least one variable.
pub open spec fn wf_stmt(s: Stmt) -> bool
    decreases s,
{
    match s {
        Stmt::Fn(f) => wf_fn_stmt(f),
        Stmt::Let(l) => match l.initializer {
            Some(e) => wf_expr(e),
            None => true,
        },
        Stmt::Block(b) => wf_stmts(b.stmts@),
        Stmt::Class(c) => {
            &&& c.name is Some
            &&& (c.superclass matches Some(v) ==> v.name is Some)
            &&& wf_fn_stmts(c.methods@)
            &&& wf_fn_stmts(c.static_methods@)
        },
        Stmt::ClassicFor(f) => {
            &&& match f.initializer {
                Some(init) => wf_stmt(*init),
                None => true,
            }
            &&& wf_expr(f.condition)
            &&& wf_expr(f.increment)
            &&& wf_stmt(*f.body)
        },
        Stmt::EnhancedFor(f) => {
            &&& f.identifiers@.len() > 0
            &&& wf_expr(f.collection)
            &&& wf_stmt(*f.body)
        },
        Stmt::While(w) => wf_expr(w.condition) && wf_stmt(*w.body),
        Stmt::If(i) => {
            &&& wf_expr(i.condition)
            &&& wf_stmts(i.then_branch@)
            &&& wf_elifs(i.elifs@)
            &&& wf_stmts(i.else_branch@)
        },
        Stmt::Continue(_) => true,
        Stmt::Return(r) => match r.value {
            Some(e) => wf_expr(e),
            None => true,
        },
        Stmt::Break(_) => true,
        Stmt::TryCatch(t) => wf_stmt(*t.try_body) && wf_stmt(*t.catch_body),
        Stmt::Expr(e) => wf_expr(e.expression),
    }
}

/// An element of well formed statements is well formed.
pub proof fn lemma_wf_stmts_at(ss: Seq<Stmt>, i: int)
    requires
        wf_stmts(ss),
        0 <= i < ss.len(),
    ensures
        wf_stmt(ss[i]),
{
    assert(wf_stmts(ss));
    assert(wf_stmt(ss[i]));
}

/// An element of well formed expressions is well formed.
pub proof fn lemma_wf_exprs_at(es: Seq<Expr>, i: int)
    requires
        wf_exprs(es),
        0 <= i < es.len(),
    ensures
        wf_expr(es[i]),
{
    assert(wf_exprs(es));
    assert(wf_expr(es[i]));
}

/// An element of well formed functions is well formed.
pub proof fn lemma_wf_fn_stmts_at(fs: Seq<FnStmt>, i: int)
    requires
        wf_fn_stmts(fs),
        0 <= i < fs.len(),
    ensures
        wf_fn_stmt(fs[i]),
{
    assert(wf_fn_stmts(fs));
    assert(wf_fn_stmt(fs[i]));
}

/// An element of well formed `elif` branches is well formed.
pub proof fn lemma_wf_elifs_at(bs: Seq<ElifBranch>, i: int)
    requires
        wf_elifs(bs),
        0 <= i < bs.len(),
    ensures
        wf_expr(bs[i].condition),
        wf_stmts(bs[i].then_branch@),
{
    assert(wf_elifs(bs));
    assert(wf_expr(bs[i].condition) && wf_stmts(bs[i].then_branch@));
}

/// Well formed statements stay so with one more well formed statement.
pub proof fn lemma_wf_stmts_push(ss: Seq<Stmt>, s: Stmt)
    requires
        wf_stmts(ss),
        wf_stmt(s),
    ensures
        wf_stmts(ss.push(s)),
{
    assert(wf_stmts(ss));
    assert forall|i: int| 0 <= i < ss.push(s).len() implies wf_stmt(#[trigger] ss.push(s)[i]) by {
        if i < ss.len() {
            assert(ss.push(s)[i] == ss[i]);
            assert(wf_stmt(ss[i]));
        }
    }
    assert(wf_stmts(ss.push(s)));
}

/// Well formed expressions stay so with one more well formed expression.
pub proof fn lemma_wf_exprs_push(es: Seq<Expr>, e: Expr)
    requires
        wf_exprs(es),
        wf_expr(e),
    ensures
        wf_exprs(es.push(e)),
{
    assert(wf_exprs(es));
    assert forall|i: int| 0 <= i < es.push(e).len() implies wf_expr(#[trigger] es.push(e)[i]) by {
        if i < es.len() {
            assert(es.push(e)[i] == es[i]);
            assert(wf_expr(es[i]));
        }
    }
    assert(wf_exprs(es.push(e)));
}

/// Well formed functions stay so with one more well formed function.
pub proof fn lemma_wf_fn_stmts_push(fs: Seq<FnStmt>, f: FnStmt)
    requires
        wf_fn_stmts(fs),
        wf_fn_stmt(f),
    ensures
        wf_fn_stmts(fs.push(f)),
{
    assert(wf_fn_stmts(fs));
    assert forall|i: int| 0 <= i < fs.push(f).len() implies wf_fn_stmt(#[trigger] fs.push(f)[i]) by {
        if i < fs.len() {
            assert(fs.push(f)[i] == fs[i]);
            assert(wf_fn_stmt(fs[i]));
        }
    }
    assert(wf_fn_stmts(fs.push(f)));
}

/// Well formed `elif` branches stay so with one more well formed branch.
pub proof fn lemma_wf_elifs_push(bs: Seq<ElifBranch>, b: ElifBranch)
    requires
        wf_elifs(bs),
        wf_expr(b.condition),
        wf_stmts(b.then_branch@),
    ensures
        wf_elifs(bs.push(b)),
{
    assert(wf_elifs(bs));
    assert forall|i: int| 0 <= i < bs.push(b).len() implies wf_expr((#[trigger] bs.push(b)[i]).condition) && wf_stmts(
        bs.push(b)[i].then_branch@,
    ) by {
        if i < bs.len() {
            assert(bs.push(b)[i] == bs[i]);
            assert(wf_expr(bs[i].condition) && wf_stmts(bs[i].then_branch@));
        }
    }
    assert(wf_elifs(bs.push(b)));
}

/// No statements, expressions, functions or branches are well formed.
pub proof fn lemma_wf_empty()
    ensures
        wf_stmts(Seq::<Stmt>::empty()),
        wf_exprs(Seq::<Expr>::empty()),
        wf_fn_stmts(Seq::<FnStmt>::empty()),
        wf_elifs(Seq::<ElifBranch>::empty()),
{
    assert(wf_stmts(Seq::<Stmt>::empty()));
    assert(wf_exprs(Seq::<Expr>::empty()));
    assert(wf_fn_stmts(Seq::<FnStmt>::empty()));
    assert(wf_elifs(Seq::<ElifBranch>::empty()));
}

// ---------------------------------------------------------------------------
// Copies: two trees are the same when they have the same nodes, tokens and
// literals.

/// `a` and `b` are the same expressions, one for one.
pub open spec fn same_exprs(a: Seq<Expr>, b: Seq<Expr>) -> bool
    decreases a,
{
    a.len() == b.len() && forall|i: int| 0 <= i < a.len() ==> same_expr(#[trigger] a[i], b[i])
}

/// `a` and `b` are the same statements, one for one.
pub open spec fn same_stmts(a: Seq<Stmt>, b: Seq<Stmt>) -> bool
    decreases a,
{
    a.len() == b.len() && forall|i: int| 0 <= i < a.len() ==> same_stmt(#[trigger] a[i], b[i])
}

/// `a` and `b` are the same functions, one for one.
pub open spec fn same_fn_stmts(a: Seq<FnStmt>, b: Seq<FnStmt>) -> bool
    decreases a,
{
    a.len() == b.len() && forall|i: int| 0 <= i < a.len() ==> same_fn_stmt(#[trigger] a[i], b[i])
}

/// `a` and `b` are the same `elif` branches, one for one.
pub open spec fn same_elifs(a: Seq<ElifBranch>, b: Seq<ElifBranch>) -> bool
    decreases a,
{
    a.len() == b.len() && forall|i: int| 0 <= i < a.len() ==> same_expr((#[trigger] a[i]).condition, b[i].condition)
        && same_stmts(a[i].then_branch@, b[i].then_branch@)
}

/// `a` and `b` are the same function: name, parameters and body.
pub open spec fn same_fn_stmt(a: FnStmt, b: FnStmt) -> bool
    decreases a,
{
    a.name == b.name && a.params@ == b.params@ && same_stmts(a.body@, b.body@)
}

/// `a` and `b` are the same access.
pub open spec fn same_access(a: AccessExpr, b: AccessExpr) -> bool {
    &&& same_expr(*a.object, *b.object)
    &&& a.brace == b.brace
    &&& same_expr(*a.first, *b.first)
    &&& a.first_colon == b.first_colon
    &&& same_expr(*a.second, *b.second)
    &&& a.second_colon == b.second_colon
    &&& same_expr(*a.third, *b.third)
}

/// `a` and `b` are the same expression.
pub open spec fn same_expr(a: Expr, b: Expr) -> bool
    decreases a,
{
    match a {
        Expr::Fn(x) => b matches Expr::Fn(y) && x.params@ == y.params@ && same_stmts(x.body@, y.body@),
        Expr::Var(x) => b == Expr::Var(x),
        Expr::List(x) => b matches Expr::List(y) && x.brace == y.brace && same_exprs(x.elements@, y.elements@),
        Expr::Dictionary(x) => b matches Expr::Dictionary(y) && x.curly_brace == y.curly_brace && same_exprs(
            x.elements@,
            y.elements@,
        ),
        Expr::Assign(x) => b matches Expr::Assign(y) && x.name == y.name && same_expr(*x.value, *y.value) && match x.access {
            Some(p) => y.access matches Some(q) && same_expr(*p.object, *q.object) && p.brace == q.brace && same_expr(
                *p.first,
                *q.first,
            ) && p.first_colon == q.first_colon && same_expr(*p.second, *q.second) && p.second_colon == q.second_colon
                && same_expr(*p.third, *q.third),
            None => y.access is None,
        },
        Expr::Access(p) => b matches Expr::Access(q) && same_expr(*p.object, *q.object) && p.brace == q.brace && same_expr(
            *p.first,
            *q.first,
        ) && p.first_colon == q.first_colon && same_expr(*p.second, *q.second) && p.second_colon == q.second_colon
            && same_expr(*p.third, *q.third),
        Expr::Binary(x) => b matches Expr::Binary(y) && x.operator == y.operator && same_expr(*x.left, *y.left) && same_expr(
            *x.right,
            *y.right,
        ),
        Expr::Call(x) => b matches Expr::Call(y) && x.paren == y.paren && same_expr(*x.callee, *y.callee) && same_exprs(
            x.arguments@,
            y.arguments@,
        ),
        Expr::Get(x) => b matches Expr::Get(y) && x.name == y.name && same_expr(*x.object, *y.object),
        Expr::SetProp(x) => b matches Expr::SetProp(y) && x.name == y.name && same_expr(*x.object, *y.object) && same_expr(
            *x.value,
            *y.value,
        ) && match x.access {
            Some(p) => y.access matches Some(q) && same_expr(*p.object, *q.object) && p.brace == q.brace && same_expr(
                *p.first,
                *q.first,
            ) && p.first_colon == q.first_colon && same_expr(*p.second, *q.second) && p.second_colon == q.second_colon
                && same_expr(*p.third, *q.third),
            None => y.access is None,
        },
        Expr::Super(x) => b == Expr::Super(x),
        Expr::Grouping(x) => b matches Expr::Grouping(y) && same_expr(*x.expression, *y.expression),
        Expr::Literal(x) => b == Expr::Literal(x),
        Expr::Logical(x) => b matches Expr::Logical(y) && x.operator == y.operator && same_expr(*x.left, *y.left) && same_expr(
            *x.right,
            *y.right,
        ),
        Expr::This(x) => b == Expr::This(x),
        Expr::Unary(x) => b matches Expr::Unary(y) && x.operator == y.operator && same_expr(*x.right, *y.right),
        Expr::Empty => b is Empty,
    }
}

/// `a` and `b` are the same statement.
pub open spec fn same_stmt(a: Stmt, b: Stmt) -> bool
    decreases a,
{
    match a {
        Stmt::Fn(f) => b matches Stmt::Fn(g) && same_fn_stmt(f, g),
        Stmt::Let(x) => b matches Stmt::Let(y) && x.name == y.name && match x.initializer {
            Some(e) => y.initializer matches Some(f) && same_expr(e, f),
            None => y.initializer is None,
        },
        Stmt::Block(x) => b matches Stmt::Block(y) && same_stmts(x.stmts@, y.stmts@),
        Stmt::Class(x) => b matches Stmt::Class(y) && x.name == y.name && x.superclass == y.superclass && same_fn_stmts(
            x.methods@,
            y.methods@,
        ) && same_fn_stmts(x.static_methods@, y.static_methods@),
        Stmt::ClassicFor(x) => b matches Stmt::ClassicFor(y) && x.keyword == y.keyword && same_expr(x.condition, y.condition)
            && same_expr(x.increment, y.increment) && same_stmt(*x.body, *y.body) && match x.initializer {
            Some(i) => y.initializer matches Some(j) && same_stmt(*i, *j),
            None => y.initializer is None,
        },
        Stmt::EnhancedFor(x) => b matches Stmt::EnhancedFor(y) && x.keyword == y.keyword && x.identifiers@ == y.identifiers@
            && same_expr(x.collection, y.collection) && same_stmt(*x.body, *y.body),
        Stmt::While(x) => b matches Stmt::While(y) && x.keyword == y.keyword && same_expr(x.condition, y.condition)
            && same_stmt(*x.body, *y.body),
        Stmt::If(x) => b matches Stmt::If(y) && x.keyword == y.keyword && same_expr(x.condition, y.condition) && same_stmts(
            x.then_branch@,
            y.then_branch@,
        ) && same_elifs(x.elifs@, y.elifs@) && same_stmts(x.else_branch@, y.else_branch@),
        Stmt::Continue(x) => b == Stmt::Continue(x),
        Stmt::Return(x) => b matches Stmt::Return(y) && x.keyword == y.keyword && match x.value {
            Some(e) => y.value matches Some(f) && same_expr(e, f),
            None => y.value is None,
        },
        Stmt::Break(x) => b == Stmt::Break(x),
        Stmt::TryCatch(x) => b matches Stmt::TryCatch(y) && x.name == y.name && same_stmt(*x.try_body, *y.try_body)
            && same_stmt(*x.catch_body, *y.catch_body),
        Stmt::Expr(x) => b matches Stmt::Expr(y) && x.last == y.last && same_expr(x.expression, y.expression),
    }
}

} // verus!
