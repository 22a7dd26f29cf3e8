//! Statement nodes of the syntax tree.

use vstd::prelude::*;
use crate::expr::{copy_opt_token, copy_tokens, Expr, VarExpr};
use crate::syntax::{
    same_elifs, same_expr, same_fn_stmt, same_fn_stmts, same_stmt, same_stmts, wf_elifs, wf_expr, wf_fn_stmt, wf_fn_stmts,
    wf_stmt, wf_stmts,
};
use crate::token::TokenData;

verus! {

#[derive(Debug, PartialEq)]
pub struct LetStmt {
    pub name: TokenData,
    pub initializer: Option<Expr>,
}

#[derive(Debug, PartialEq)]
pub struct ClassicForStmt {
    pub keyword: TokenData,
    pub initializer: Option<Box<Stmt>>,
    pub condition: Expr,
    pub increment: Expr,
    pub body: Box<Stmt>,
}

#[derive(Debug, PartialEq)]
pub struct EnhancedForStmt {
    pub keyword: TokenData,
    pub identifiers: Vec<TokenData>,
    pub collection: Expr,
    pub body: Box<Stmt>,
}

#[derive(Debug, PartialEq)]
pub struct TryCatchStmt {
    pub try_body: Box<Stmt>,
    pub name: TokenData,
    pub catch_body: Box<Stmt>,
}

#[derive(Debug, PartialEq)]
pub struct WhileStmt {
    pub keyword: TokenData,
    pub condition: Expr,
    pub body: Box<Stmt>,
}

#[derive(Debug, PartialEq)]
pub struct ReturnStmt {
    pub keyword: TokenData,
    pub value: Option<Expr>,
}

#[derive(Debug, PartialEq)]
pub struct BreakStmt {
    pub keyword: TokenData,
}

#[derive(Debug, PartialEq)]
pub struct ContinueStmt {
    pub keyword: TokenData,
}

#[derive(Debug, PartialEq)]
pub struct ElifBranch {
    pub condition: Expr,
    pub then_branch: Vec<Stmt>,
}

#[derive(Debug, PartialEq)]
pub struct IfStmt {
    pub keyword: TokenData,
    pub condition: Expr,
    pub then_branch: Vec<Stmt>,
    pub elifs: Vec<ElifBranch>,
    pub else_branch: Vec<Stmt>,
}

#[derive(Debug, PartialEq)]
pub struct FnStmt {
    pub name: TokenData,
    pub params: Vec<TokenData>,
    pub body: Vec<Stmt>,
}

#[derive(Debug, PartialEq)]
pub struct ClassStmt {
    pub name: Option<TokenData>,
    pub methods: Vec<FnStmt>,
    pub static_methods: Vec<FnStmt>,
    pub superclass: Option<VarExpr>,
}

#[derive(Debug, PartialEq)]
pub struct BlockStmt {
    pub stmts: Vec<Stmt>,
}

#[derive(Debug, PartialEq)]
pub struct ExprStmt {
    pub last: Option<TokenData>,
    pub expression: Expr,
}

#[derive(Debug, PartialEq)]
pub enum Stmt {
    Fn(FnStmt),
    Let(LetStmt),
    Block(BlockStmt),
    Class(ClassStmt),
    ClassicFor(ClassicForStmt),
    EnhancedFor(EnhancedForStmt),
    While(WhileStmt),
    If(IfStmt),
    Continue(ContinueStmt),
    Return(ReturnStmt),
    Break(BreakStmt),
    TryCatch(TryCatchStmt),
    Expr(ExprStmt),
}

/// A copy of a list of statements.
pub fn copy_stmts(v: &Vec<Stmt>) -> (r: Vec<Stmt>)
    ensures
        r@.len() == v@.len(),
        forall|k: int| 0 <= k < v@.len() ==> (wf_stmt(v@[k]) ==> wf_stmt(#[trigger] r@[k])),
        wf_stmts(v@) ==> wf_stmts(r@),
        same_stmts(v@, r@),
    decreases v,
{
    let mut r: Vec<Stmt> = Vec::new();
    let mut i: usize = 0;
    while i < v.len()
        invariant
            0 <= i <= v@.len(),
            r@.len() == i,
            forall|k: int| 0 <= k < i ==> (wf_stmt(v@[k]) ==> wf_stmt(#[trigger] r@[k])),
            forall|k: int| 0 <= k < i ==> same_stmt(v@[k], #[trigger] r@[k]),
        decreases v@.len() - i,
    {
        proof {
            assert(decreases_to!(v => v@[i as int]));
        }
        r.push(v[i].copied());
        i = i + 1;
    }
    r
}

/// A copy of a list of functions.
pub fn copy_fn_stmts(v: &Vec<FnStmt>) -> (r: Vec<FnStmt>)
    ensures
        r@.len() == v@.len(),
        forall|k: int| 0 <= k < v@.len() ==> (wf_fn_stmt(v@[k]) ==> wf_fn_stmt(#[trigger] r@[k])),
        wf_fn_stmts(v@) ==> wf_fn_stmts(r@),
        same_fn_stmts(v@, r@),
    decreases v,
{
    let mut r: Vec<FnStmt> = Vec::new();
    let mut i: usize = 0;
    while i < v.len()
        invariant
            0 <= i <= v@.len(),
            r@.len() == i,
            forall|k: int| 0 <= k < i ==> (wf_fn_stmt(v@[k]) ==> wf_fn_stmt(#[trigger] r@[k])),
            forall|k: int| 0 <= k < i ==> same_fn_stmt(v@[k], #[trigger] r@[k]),
        decreases v@.len() - i,
    {
        proof {
            assert(decreases_to!(v => v@[i as int]));
        }
        r.push(v[i].copied());
        i = i + 1;
    }
    r
}

/// A copy of a list of `elif` branches.
pub fn copy_elifs(v: &Vec<ElifBranch>) -> (r: Vec<ElifBranch>)
    ensures
        r@.len() == v@.len(),
        wf_elifs(v@) ==> wf_elifs(r@),
        same_elifs(v@, r@),
    decreases v,
{
    let mut r: Vec<ElifBranch> = Vec::new();
    let mut i: usize = 0;
    while i < v.len()
        invariant
            0 <= i <= v@.len(),
            r@.len() == i,
            wf_elifs(v@) ==> wf_elifs(r@),
            forall|k: int| 0 <= k < i ==> same_expr(v@[k].condition, (#[trigger] r@[k]).condition) && same_stmts(
                v@[k].then_branch@,
                r@[k].then_branch@,
            ),
        decreases v@.len() - i,
    {
        proof {
            assert(decreases_to!(v => v@[i as int]));
        }
        let b = &v[i];
        proof {
            assert(decreases_to!(v@[i as int] => b.then_branch));
        }
        let c = b.condition.copied();
        let t = copy_stmts(&b.then_branch);
        let ghost before = r@;
        r.push(ElifBranch { condition: c, then_branch: t });
        proof {
            if wf_elifs(v@) {
                assert(wf_expr(v@[i as int].condition) && wf_stmts(v@[i as int].then_branch@));
                assert forall|k: int| 0 <= k < r@.len() implies wf_expr((#[trigger] r@[k]).condition) && wf_stmts(r@[k].then_branch@) by {
                    if k < i {
                        assert(r@[k] == before[k]);
                    }
                }
            }
        }
        i = i + 1;
    }
    r
}

impl FnStmt {
    /// A copy of this function.
    pub fn copied(&self) -> (r: FnStmt)
        ensures
            wf_fn_stmt(*self) ==> wf_fn_stmt(r),
            same_fn_stmt(*self, r),
        decreases self,
    {
        FnStmt { name: self.name.copied(), params: copy_tokens(&self.params), body: copy_stmts(&self.body) }
    }
}

impl Stmt {
    /// A copy of this statement.
    pub fn copied(&self) -> (r: Stmt)
        ensures
            wf_stmt(*self) ==> wf_stmt(r),
            same_stmt(*self, r),
        decreases self,
    {
        match self {
            Stmt::Fn(f) => Stmt::Fn(f.copied()),
            Stmt::Let(l) => {
                let init = match &l.initializer {
                    Some(e) => Some(e.copied()),
                    None => None,
                };
                Stmt::Let(LetStmt { name: l.name.copied(), initializer: init })
            },
            Stmt::Block(b) => Stmt::Block(BlockStmt { stmts: copy_stmts(&b.stmts) }),
            Stmt::Class(c) => {
                let superclass = match &c.superclass {
                    Some(v) => Some(VarExpr { name: copy_opt_token(&v.name) }),
                    None => None,
                };
                Stmt::Class(
                    ClassStmt {
                        name: copy_opt_token(&c.name),
                        methods: copy_fn_stmts(&c.methods),
                        static_methods: copy_fn_stmts(&c.static_methods),
                        superclass: superclass,
                    },
                )
            },
            Stmt::ClassicFor(f) => {
                let init = match &f.initializer {
                    Some(s) => Some(Box::new(s.copied())),
                    None => None,
                };
                Stmt::ClassicFor(
                    ClassicForStmt {
                        keyword: f.keyword.copied(),
                        initializer: init,
                        condition: f.condition.copied(),
                        increment: f.increment.copied(),
                        body: Box::new(f.body.copied()),
                    },
                )
            },
            Stmt::EnhancedFor(f) => Stmt::EnhancedFor(
                EnhancedForStmt {
                    keyword: f.keyword.copied(),
                    identifiers: copy_tokens(&f.identifiers),
                    collection: f.collection.copied(),
                    body: Box::new(f.body.copied()),
                },
            ),
            Stmt::While(w) => Stmt::While(
                WhileStmt { keyword: w.keyword.copied(), condition: w.condition.copied(), body: Box::new(w.body.copied()) },
            ),
            Stmt::If(i) => Stmt::If(
                IfStmt {
                    keyword: i.keyword.copied(),
                    condition: i.condition.copied(),
                    then_branch: copy_stmts(&i.then_branch),
                    elifs: copy_elifs(&i.elifs),
                    else_branch: copy_stmts(&i.else_branch),
                },
            ),
            Stmt::Continue(c) => Stmt::Continue(ContinueStmt { keyword: c.keyword.copied() }),
            Stmt::Return(r) => {
                let value = match &r.value {
                    Some(e) => Some(e.copied()),
                    None => None,
                };
                Stmt::Return(ReturnStmt { keyword: r.keyword.copied(), value: value })
            },
            Stmt::Break(b) => Stmt::Break(BreakStmt { keyword: b.keyword.copied() }),
            Stmt::TryCatch(t) => Stmt::TryCatch(
                TryCatchStmt {
                    try_body: Box::new(t.try_body.copied()),
                    name: t.name.copied(),
                    catch_body: Box::new(t.catch_body.copied()),
                },
            ),
            Stmt::Expr(e) => Stmt::Expr(ExprStmt { last: copy_opt_token(&e.last), expression: e.expression.copied() }),
        }
    }
}

} // verus!
