//! Expression nodes of the syntax tree.

use vstd::prelude::*;
use crate::stmt::{copy_stmts, Stmt};
use crate::syntax::{binding, same_access, same_expr, same_exprs, wf_access, wf_expr, wf_exprs, wf_stmts};
use crate::token::{Literal, TokenData};

verus! {

#[derive(Debug, PartialEq)]
pub struct FnExpr {
    pub params: Vec<TokenData>,
    pub body: Vec<Stmt>,
}

#[derive(Debug, PartialEq)]
pub struct VarExpr {
    pub name: Option<TokenData>,
}

#[derive(Debug, PartialEq)]
pub struct ListExpr {
    pub elements: Vec<Expr>,
    pub brace: TokenData,
}

/// Keys are at even positions of `elements`, each followed by its value.
#[derive(Debug, PartialEq)]
pub struct DictionaryExpr {
    pub elements: Vec<Expr>,
    pub curly_brace: TokenData,
}

/// `name = value`, or `name[..]... = value` when `access` is present.
#[derive(Debug, PartialEq)]
pub struct AssignExpr {
    pub name: TokenData,
    pub value: Box<Expr>,
    pub access: Option<AccessExpr>,
}

/// `object[first:second:third]`; absent parts are `Expr::Empty` and absent
/// colons are tokens of kind `Nil`.
#[derive(Debug, PartialEq)]
pub struct AccessExpr {
    pub object: Box<Expr>,
    pub brace: TokenData,
    pub first: Box<Expr>,
    pub first_colon: TokenData,
    pub second: Box<Expr>,
    pub second_colon: TokenData,
    pub third: Box<Expr>,
}

#[derive(Debug, PartialEq)]
pub struct BinaryExpr {
    pub left: Box<Expr>,
    pub operator: TokenData,
    pub right: Box<Expr>,
}

#[derive(Debug, PartialEq)]
pub struct CallExpr {
    pub callee: Box<Expr>,
    pub paren: TokenData,
    pub arguments: Vec<Expr>,
}

#[derive(Debug, PartialEq)]
pub struct GetExpr {
    pub object: Box<Expr>,
    pub name: TokenData,
}

/// `object.name = value`, or `object.name[..]... = value` when `access` is present.
#[derive(Debug, PartialEq)]
pub struct SetExpr {
    pub object: Box<Expr>,
    pub name: TokenData,
    pub value: Box<Expr>,
    pub access: Option<AccessExpr>,
}

#[derive(Debug, PartialEq)]
pub struct SuperExpr {
    pub keyword: TokenData,
    pub method: TokenData,
}

#[derive(Debug, PartialEq)]
pub struct GroupingExpr {
    pub expression: Box<Expr>,
}

#[derive(Debug, PartialEq)]
pub struct LiteralExpr {
    pub value: Literal,
}

#[derive(Debug, PartialEq)]
pub struct LogicalExpr {
    pub left: Box<Expr>,
    pub operator: TokenData,
    pub right: Box<Expr>,
}

#[derive(Debug, PartialEq)]
pub struct ThisExpr {
    pub keyword: TokenData,
}

#[derive(Debug, PartialEq)]
pub struct UnaryExpr {
    pub operator: TokenData,
    pub right: Box<Expr>,
}

#[derive(Debug, PartialEq)]
pub enum Expr {
    Fn(FnExpr),
    Var(VarExpr),
    List(ListExpr),
    Dictionary(DictionaryExpr),
    Assign(AssignExpr),
    Access(AccessExpr),
    Binary(BinaryExpr),
    Call(CallExpr),
    Get(GetExpr),
    SetProp(SetExpr),
    Super(SuperExpr),
    Grouping(GroupingExpr),
    Literal(LiteralExpr),
    Logical(LogicalExpr),
    This(ThisExpr),
    Unary(UnaryExpr),
    Empty,
}

/// A copy of a list of tokens.
pub fn copy_tokens(v: &Vec<TokenData>) -> (r: Vec<TokenData>)
    ensures
        r@ == v@,
{
    let mut r: Vec<TokenData> = Vec::new();
    let mut i: usize = 0;
    while i < v.len()
        invariant
            0 <= i <= v@.len(),
            r@ == v@.subrange(0, i as int),
        decreases v@.len() - i,
    {
        r.push(v[i].copied());
        i = i + 1;
    }
    assert(r@ =~= v@);
    r
}

/// A copy of an optional token.
pub fn copy_opt_token(t: &Option<TokenData>) -> (r: Option<TokenData>)
    ensures
        r == *t,
{
    match t {
        Some(t) => Some(t.copied()),
        None => None,
    }
}

/// A copy of a list of expressions.
pub fn copy_exprs(v: &Vec<Expr>) -> (r: Vec<Expr>)
    ensures
        r@.len() == v@.len(),
        forall|k: int| 0 <= k < v@.len() ==> (wf_expr(v@[k]) ==> wf_expr(#[trigger] r@[k])),
        wf_exprs(v@) ==> wf_exprs(r@),
        same_exprs(v@, r@),
    decreases v,
{
    let mut r: Vec<Expr> = Vec::new();
    let mut i: usize = 0;
    while i < v.len()
        invariant
            0 <= i <= v@.len(),
            r@.len() == i,
            forall|k: int| 0 <= k < i ==> (wf_expr(v@[k]) ==> wf_expr(#[trigger] r@[k])),
            forall|k: int| 0 <= k < i ==> same_expr(v@[k], #[trigger] r@[k]),
        decreases v@.len() - i,
    {
        proof {
            assert(decreases_to!(v => v@[i as int]));
        }
        r.push(v[i].copied());
        i = i + 1;
    }
    r
}

impl AccessExpr {
    /// A copy of this access.
    pub fn copied(&self) -> (r: AccessExpr)
        ensures
            wf_access(*self) ==> wf_access(r),
            same_access(*self, r),
        decreases self,
    {
        AccessExpr {
            object: Box::new(self.object.copied()),
            brace: self.brace.copied(),
            first: Box::new(self.first.copied()),
            first_colon: self.first_colon.copied(),
            second: Box::new(self.second.copied()),
            second_colon: self.second_colon.copied(),
            third: Box::new(self.third.copied()),
        }
    }
}

impl Expr {
    /// A copy of this expression.
    #[verifier::spinoff_prover]
    #[verifier::rlimit(60)]
    pub fn copied(&self) -> (r: Expr)
        ensures
            wf_expr(*self) ==> wf_expr(r),
            same_expr(*self, r),
            binding(r) == binding(*self),
        decreases self,
    {
        match self {
            Expr::Fn(f) => Expr::Fn(FnExpr { params: copy_tokens(&f.params), body: copy_stmts(&f.body) }),
            Expr::Var(v) => Expr::Var(VarExpr { name: copy_opt_token(&v.name) }),
            Expr::List(l) => Expr::List(ListExpr { elements: copy_exprs(&l.elements), brace: l.brace.copied() }),
            Expr::Dictionary(d) => Expr::Dictionary(
                DictionaryExpr { elements: copy_exprs(&d.elements), curly_brace: d.curly_brace.copied() },
            ),
            Expr::Assign(a) => {
                let access = match &a.access {
                    Some(acc) => Some(acc.copied()),
                    None => None,
                };
                Expr::Assign(AssignExpr { name: a.name.copied(), value: Box::new(a.value.copied()), access: access })
            },
            Expr::Access(a) => Expr::Access(a.copied()),
            Expr::Binary(b) => Expr::Binary(
                BinaryExpr { left: Box::new(b.left.copied()), operator: b.operator.copied(), right: Box::new(b.right.copied()) },
            ),
            Expr::Call(c) => Expr::Call(
                CallExpr { callee: Box::new(c.callee.copied()), paren: c.paren.copied(), arguments: copy_exprs(&c.arguments) },
            ),
            Expr::Get(g) => Expr::Get(GetExpr { object: Box::new(g.object.copied()), name: g.name.copied() }),
            Expr::SetProp(s) => {
                let access = match &s.access {
                    Some(acc) => Some(acc.copied()),
                    None => None,
                };
                Expr::SetProp(
                    SetExpr {
                        object: Box::new(s.object.copied()),
                        name: s.name.copied(),
                        value: Box::new(s.value.copied()),
                        access: access,
                    },
                )
            },
            Expr::Super(s) => Expr::Super(SuperExpr { keyword: s.keyword.copied(), method: s.method.copied() }),
            Expr::Grouping(g) => Expr::Grouping(GroupingExpr { expression: Box::new(g.expression.copied()) }),
            Expr::Literal(l) => Expr::Literal(LiteralExpr { value: l.value.copied() }),
            Expr::Logical(l) => Expr::Logical(
                LogicalExpr { left: Box::new(l.left.copied()), operator: l.operator.copied(), right: Box::new(l.right.copied()) },
            ),
            Expr::This(t) => Expr::This(ThisExpr { keyword: t.keyword.copied() }),
            Expr::Unary(u) => Expr::Unary(UnaryExpr { operator: u.operator.copied(), right: Box::new(u.right.copied()) }),
            Expr::Empty => Expr::Empty,
        }
    }

    /// Whether this is the empty expression.
    pub fn is_empty(&self) -> (r: bool)
        ensures
            r == (*self is Empty),
    {
        match self {
            Expr::Empty => true,
            _ => false,
        }
    }
}

} // verus!
