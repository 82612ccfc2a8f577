use vstd::prelude::*;

use crate::lexer::Token;

verus! {

broadcast use vstd::std_specs::vec::axiom_vec_index_decreases;

/// An expression of the language.
///
/// Numbers keep the literal as it was written (digits with at most one dot);
/// the backend turns the literal into a double.
#[derive(Debug)]
pub enum Expr {
    Number(String),
    Variable(String),
    BinOp { left: Box<Expr>, op: Token, right: Box<Expr> },
    Call { identifier: String, args: Vec<Expr> },
    If { condition: Box<Expr>, then_branch: Box<Expr>, else_branch: Box<Expr> },
    For {
        ident: String,
        start: Box<Expr>,
        end: Box<Expr>,
        step: Option<Box<Expr>>,
        body: Box<Expr>,
    },
    Unary { op: char, left: Box<Expr> },
    Var { varnames: Vec<(String, Option<Expr>)>, body: Box<Expr> },
    NoBody,
}

/// A function definition, an `extern` declaration (body `Expr::NoBody`), or a
/// top-level expression wrapped into a function without parameters.
#[derive(Debug)]
pub struct Function {
    pub name: String,
    pub args: Vec<String>,
    pub body: Expr,
    pub is_operator: bool,
    /// The precedence literal of a `binary` prototype, as written.
    pub precedence: Option<String>,
}

/// The mathematical shape of an expression: strings are character sequences.
pub enum Ast {
    Number(Seq<char>),
    Variable(Seq<char>),
    BinOp(Box<Ast>, Token, Box<Ast>),
    Call(Seq<char>, Seq<Ast>),
    If(Box<Ast>, Box<Ast>, Box<Ast>),
    For(Seq<char>, Box<Ast>, Box<Ast>, Option<Box<Ast>>, Box<Ast>),
    Unary(char, Box<Ast>),
    Var(Seq<(Seq<char>, Option<Ast>)>, Box<Ast>),
    NoBody,
}

pub open spec fn view_exprs(v: Vec<Expr>, n: nat) -> Seq<Ast>
    decreases v, n,
{
    if n == 0 || n > v.len() {
        Seq::empty()
    } else {
        view_exprs(v, (n - 1) as nat).push(view_expr(v[n - 1]))
    }
}

pub open spec fn view_bindings(v: Vec<(String, Option<Expr>)>, n: nat) -> Seq<(Seq<char>, Option<Ast>)>
    decreases v, n,
{
    if n == 0 || n > v.len() {
        Seq::empty()
    } else {
        let b = v[n - 1];
        view_bindings(v, (n - 1) as nat).push((b.0@, view_init(b.1)))
    }
}

pub open spec fn view_init(o: Option<Expr>) -> Option<Ast>
    decreases o,
{
    match o {
        Some(x) => Some(view_expr(x)),
        None => None,
    }
}

pub open spec fn view_step(o: Option<Box<Expr>>) -> Option<Box<Ast>>
    decreases o,
{
    match o {
        Some(x) => Some(Box::new(view_expr(*x))),
        None => None,
    }
}

/// The shape of an expression.
pub open spec fn view_expr(e: Expr) -> Ast
    decreases e,
{
    match e {
        Expr::Number(s) => Ast::Number(s@),
        Expr::Variable(s) => Ast::Variable(s@),
        Expr::BinOp { left, op, right } => Ast::BinOp(
            Box::new(view_expr(*left)),
            op,
            Box::new(view_expr(*right)),
        ),
        Expr::Call { identifier, args } => Ast::Call(identifier@, view_exprs(args, args.len() as nat)),
        Expr::If { condition, then_branch, else_branch } => Ast::If(
            Box::new(view_expr(*condition)),
            Box::new(view_expr(*then_branch)),
            Box::new(view_expr(*else_branch)),
        ),
        Expr::For { ident, start, end, step, body } => Ast::For(
            ident@,
            Box::new(view_expr(*start)),
            Box::new(view_expr(*end)),
            view_step(step),
            Box::new(view_expr(*body)),
        ),
        Expr::Unary { op, left } => Ast::Unary(op, Box::new(view_expr(*left))),
        Expr::Var { varnames, body } => Ast::Var(
            view_bindings(varnames, varnames.len() as nat),
            Box::new(view_expr(*body)),
        ),
        Expr::NoBody => Ast::NoBody,
    }
}

/// The mathematical shape of a function.
pub struct FunctionShape {
    pub name: Seq<char>,
    pub args: Seq<Seq<char>>,
    pub body: Ast,
    pub is_operator: bool,
    pub precedence: Option<Seq<char>>,
}

impl View for Function {
    type V = FunctionShape;

    open spec fn view(&self) -> FunctionShape {
        FunctionShape {
            name: self.name@,
            args: self.args@.map_values(|a: String| a@),
            body: view_expr(self.body),
            is_operator: self.is_operator,
            precedence: match self.precedence {
                Some(s) => Some(s@),
                None => None,
            },
        }
    }
}

pub proof fn lemma_view_exprs_prefix(v: Vec<Expr>, w: Vec<Expr>, n: nat)
    requires
        n <= v.len(),
        n <= w.len(),
        forall|i: int| 0 <= i < n ==> v@[i] == w@[i],
    ensures
        view_exprs(v, n) == view_exprs(w, n),
    decreases n,
{
    if n > 0 {
        lemma_view_exprs_prefix(v, w, (n - 1) as nat);
    }
}

pub proof fn lemma_view_bindings_prefix(
    v: Vec<(String, Option<Expr>)>,
    w: Vec<(String, Option<Expr>)>,
    n: nat,
)
    requires
        n <= v.len(),
        n <= w.len(),
        forall|i: int| 0 <= i < n ==> v@[i] == w@[i],
    ensures
        view_bindings(v, n) == view_bindings(w, n),
    decreases n,
{
    if n > 0 {
        lemma_view_bindings_prefix(v, w, (n - 1) as nat);
    }
}

impl View for Expr {
    type V = Ast;

    open spec fn view(&self) -> Ast {
        view_expr(*self)
    }
}

} // verus!
