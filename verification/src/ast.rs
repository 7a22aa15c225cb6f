//! OpenSCAD-like abstract syntax tree, and its mathematical model.
//!
//! Every node has a view (`ExprV`, `StatementV`, ...) in which vectors become
//! sequences and strings become sequences of characters; the grammar in
//! `syntax` is stated over these views.
use vstd::prelude::*;

verus! {

/// A parsed source file: its top-level statements in order.
#[derive(Debug)]
pub struct Program {
    pub statements: Vec<Statement>,
}

#[derive(Debug)]
pub enum Statement {
    /// name = expr;
    Assign { name: String, value: Expr },
    /// module name(params) body
    ModuleDef { name: String, params: Vec<Param>, body: Vec<Statement> },
    /// function name(params) = expr;
    FunctionDef { name: String, params: Vec<Param>, body: Expr },
    /// module_name(args) children
    ModuleCall { name: String, args: Vec<Arg>, children: Vec<Statement> },
    /// if (cond) stmt [else stmt]
    If { cond: Expr, then_branch: Box<Statement>, else_branch: Option<Box<Statement>> },
    /// for (name = range) stmt
    For { name: String, range: Expr, body: Box<Statement> },
    /// Bare block { ... }
    Block(Vec<Statement>),
    /// expr;  (echo / ignore non-geometry)
    ExprStmt(Expr),
}

#[derive(Debug)]
pub struct Param {
    pub name: String,
    pub default: Option<Expr>,
}

#[derive(Debug)]
pub enum Arg {
    Named(String, Expr),
    Positional(Expr),
}

#[derive(Debug)]
pub enum Expr {
    /// A numeral, kept as written in the source (for instance `1.5e3`).
    /// In a parsed program its text is always a floating-point literal as
    /// `f64::from_str` documents them (`parser::parse` ensures it).
    Number(String),
    Bool(bool),
    String(String),
    /// [a, b, c]
    Vector(Vec<Expr>),
    /// [start : end] or [start : step : end]
    Range { start: Box<Expr>, step: Option<Box<Expr>>, end: Box<Expr> },
    Ident(String),
    /// name(args)
    Call { name: String, args: Vec<Arg> },
    /// list[index]
    Index { base: Box<Expr>, index: Box<Expr> },
    Unary { op: UnaryOp, expr: Box<Expr> },
    Binary { op: BinaryOp, left: Box<Expr>, right: Box<Expr> },
    /// condition ? then : else
    Ternary { cond: Box<Expr>, then_expr: Box<Expr>, else_expr: Box<Expr> },
    /// [ for (x = r) expr ]  simplified list comprehension
    ListComp { name: String, range: Box<Expr>, body: Box<Expr> },
}

#[derive(Clone, Copy, Debug, PartialEq, Eq, Structural)]
pub enum UnaryOp {
    Neg,
    Not,
}

#[derive(Clone, Copy, Debug, PartialEq, Eq, Structural)]
pub enum BinaryOp {
    Add,
    Sub,
    Mul,
    Div,
    Mod,
    Pow,
    Eq,
    Ne,
    Lt,
    Le,
    Gt,
    Ge,
    And,
    Or,
}

// ---- mathematical model ----

pub enum ExprV {
    Number(Seq<char>),
    Bool(bool),
    Str(Seq<char>),
    Vector(Seq<ExprV>),
    Range { start: Box<ExprV>, step: Option<Box<ExprV>>, end: Box<ExprV> },
    Ident(Seq<char>),
    Call { name: Seq<char>, args: Seq<ArgV> },
    Index { base: Box<ExprV>, index: Box<ExprV> },
    Unary { op: UnaryOp, expr: Box<ExprV> },
    Binary { op: BinaryOp, left: Box<ExprV>, right: Box<ExprV> },
    Ternary { cond: Box<ExprV>, then_expr: Box<ExprV>, else_expr: Box<ExprV> },
    ListComp { name: Seq<char>, range: Box<ExprV>, body: Box<ExprV> },
}

pub enum ArgV {
    Named(Seq<char>, ExprV),
    Positional(ExprV),
}

pub struct ParamV {
    pub name: Seq<char>,
    pub default: Option<ExprV>,
}

pub enum StatementV {
    Assign { name: Seq<char>, value: ExprV },
    ModuleDef { name: Seq<char>, params: Seq<ParamV>, body: Seq<StatementV> },
    FunctionDef { name: Seq<char>, params: Seq<ParamV>, body: ExprV },
    ModuleCall { name: Seq<char>, args: Seq<ArgV>, children: Seq<StatementV> },
    If { cond: ExprV, then_branch: Box<StatementV>, else_branch: Option<Box<StatementV>> },
    For { name: Seq<char>, range: ExprV, body: Box<StatementV> },
    Block(Seq<StatementV>),
    ExprStmt(ExprV),
}

impl Expr {
    pub open spec fn view_expr(&self) -> ExprV
        decreases self,
    {
        match self {
            Expr::Number(t) => ExprV::Number(t@),
            Expr::Bool(b) => ExprV::Bool(*b),
            Expr::String(t) => ExprV::Str(t@),
            Expr::Vector(v) => ExprV::Vector(
                Seq::new(
                    v.len() as nat,
                    |i: int|
                        if 0 <= i < v.len() {
                            v[i].view_expr()
                        } else {
                            ExprV::Bool(false)
                        },
                ),
            ),
            Expr::Range { start, step, end } => ExprV::Range {
                start: Box::new(start.view_expr()),
                step: match step {
                    Some(st) => Some(Box::new(st.view_expr())),
                    None => None,
                },
                end: Box::new(end.view_expr()),
            },
            Expr::Ident(n) => ExprV::Ident(n@),
            Expr::Call { name, args } => ExprV::Call {
                name: name@,
                args: Seq::new(
                    args.len() as nat,
                    |i: int|
                        if 0 <= i < args.len() {
                            args[i].view_arg()
                        } else {
                            ArgV::Positional(ExprV::Bool(false))
                        },
                ),
            },
            Expr::Index { base, index } => ExprV::Index {
                base: Box::new(base.view_expr()),
                index: Box::new(index.view_expr()),
            },
            Expr::Unary { op, expr } => ExprV::Unary { op: *op, expr: Box::new(expr.view_expr()) },
            Expr::Binary { op, left, right } => ExprV::Binary {
                op: *op,
                left: Box::new(left.view_expr()),
                right: Box::new(right.view_expr()),
            },
            Expr::Ternary { cond, then_expr, else_expr } => ExprV::Ternary {
                cond: Box::new(cond.view_expr()),
                then_expr: Box::new(then_expr.view_expr()),
                else_expr: Box::new(else_expr.view_expr()),
            },
            Expr::ListComp { name, range, body } => ExprV::ListComp {
                name: name@,
                range: Box::new(range.view_expr()),
                body: Box::new(body.view_expr()),
            },
        }
    }
}

impl Arg {
    pub open spec fn view_arg(&self) -> ArgV
        decreases self,
    {
        match self {
            Arg::Named(n, e) => ArgV::Named(n@, e.view_expr()),
            Arg::Positional(e) => ArgV::Positional(e.view_expr()),
        }
    }
}

impl Param {
    pub open spec fn view_param(&self) -> ParamV {
        ParamV {
            name: self.name@,
            default: match &self.default {
                Some(e) => Some(e.view_expr()),
                None => None,
            },
        }
    }
}

impl Statement {
    pub open spec fn view_stmt(&self) -> StatementV
        decreases self,
    {
        match self {
            Statement::Assign { name, value } => StatementV::Assign {
                name: name@,
                value: value.view_expr(),
            },
            Statement::ModuleDef { name, params, body } => StatementV::ModuleDef {
                name: name@,
                params: params_view(params@),
                body: Seq::new(
                    body.len() as nat,
                    |i: int|
                        if 0 <= i < body.len() {
                            body[i].view_stmt()
                        } else {
                            StatementV::Block(Seq::empty())
                        },
                ),
            },
            Statement::FunctionDef { name, params, body } => StatementV::FunctionDef {
                name: name@,
                params: params_view(params@),
                body: body.view_expr(),
            },
            Statement::ModuleCall { name, args, children } => StatementV::ModuleCall {
                name: name@,
                args: args_view(args@),
                children: Seq::new(
                    children.len() as nat,
                    |i: int|
                        if 0 <= i < children.len() {
                            children[i].view_stmt()
                        } else {
                            StatementV::Block(Seq::empty())
                        },
                ),
            },
            Statement::If { cond, then_branch, else_branch } => StatementV::If {
                cond: cond.view_expr(),
                then_branch: Box::new(then_branch.view_stmt()),
                else_branch: match else_branch {
                    Some(b) => Some(Box::new(b.view_stmt())),
                    None => None,
                },
            },
            Statement::For { name, range, body } => StatementV::For {
                name: name@,
                range: range.view_expr(),
                body: Box::new(body.view_stmt()),
            },
            Statement::Block(stmts) => StatementV::Block(
                Seq::new(
                    stmts.len() as nat,
                    |i: int|
                        if 0 <= i < stmts.len() {
                            stmts[i].view_stmt()
                        } else {
                            StatementV::Block(Seq::empty())
                        },
                ),
            ),
            Statement::ExprStmt(e) => StatementV::ExprStmt(e.view_expr()),
        }
    }
}

/// The views of a sequence of expressions.
pub open spec fn exprs_view(v: Seq<Expr>) -> Seq<ExprV> {
    Seq::new(v.len(), |i: int| v[i].view_expr())
}

/// The views of a sequence of arguments.
pub open spec fn args_view(v: Seq<Arg>) -> Seq<ArgV> {
    Seq::new(v.len(), |i: int| v[i].view_arg())
}

/// The views of a sequence of parameters.
pub open spec fn params_view(v: Seq<Param>) -> Seq<ParamV> {
    Seq::new(v.len(), |i: int| v[i].view_param())
}

/// The views of a sequence of statements.
pub open spec fn stmts_view(v: Seq<Statement>) -> Seq<StatementV> {
    Seq::new(v.len(), |i: int| v[i].view_stmt())
}

impl Program {
    pub open spec fn view_program(&self) -> Seq<StatementV> {
        stmts_view(self.statements@)
    }
}

} // verus!
