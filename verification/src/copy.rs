//! Copies of syntax trees: a copy has the view of its original.
use vstd::prelude::*;
use crate::ast::{args_view, exprs_view, params_view, stmts_view, Arg, Expr, Param, Program, Statement};

verus! {

/// A vector literal's view is the vector of its items' views.
proof fn lemma_vector_view(a: Vec<Expr>, b: Vec<Expr>)
    requires
        exprs_view(a@) == exprs_view(b@),
    ensures
        Expr::Vector(a).view_expr() == Expr::Vector(b).view_expr(),
{
    assert(Expr::Vector(a).view_expr()->Vector_0 =~= exprs_view(a@));
    assert(Expr::Vector(b).view_expr()->Vector_0 =~= exprs_view(b@));
}

/// A call's view holds the views of its arguments.
proof fn lemma_call_view(name: String, a: Vec<Arg>, b: Vec<Arg>)
    requires
        args_view(a@) == args_view(b@),
    ensures
        (Expr::Call { name, args: a }).view_expr() == (Expr::Call { name, args: b }).view_expr(),
{
    assert((Expr::Call { name, args: a }).view_expr()->Call_args =~= args_view(a@));
    assert((Expr::Call { name, args: b }).view_expr()->Call_args =~= args_view(b@));
}

/// A block's view is the sequence of its statements' views.
proof fn lemma_block_view(a: Vec<Statement>, b: Vec<Statement>)
    requires
        stmts_view(a@) == stmts_view(b@),
    ensures
        Statement::Block(a).view_stmt() == Statement::Block(b).view_stmt(),
{
    assert(Statement::Block(a).view_stmt()->Block_0 =~= stmts_view(a@));
    assert(Statement::Block(b).view_stmt()->Block_0 =~= stmts_view(b@));
}

/// A module definition's view holds the views of its body's statements.
proof fn lemma_module_def_view(name: String, params: Vec<Param>, a: Vec<Statement>, b: Vec<Statement>)
    requires
        stmts_view(a@) == stmts_view(b@),
    ensures
        (Statement::ModuleDef { name, params, body: a }).view_stmt()
            == (Statement::ModuleDef { name, params, body: b }).view_stmt(),
{
    assert((Statement::ModuleDef { name, params, body: a }).view_stmt()->ModuleDef_body =~= stmts_view(a@));
    assert((Statement::ModuleDef { name, params, body: b }).view_stmt()->ModuleDef_body =~= stmts_view(b@));
}

/// A module call's view holds the views of its children.
proof fn lemma_module_call_view(name: String, args: Vec<Arg>, a: Vec<Statement>, b: Vec<Statement>)
    requires
        stmts_view(a@) == stmts_view(b@),
    ensures
        (Statement::ModuleCall { name, args, children: a }).view_stmt()
            == (Statement::ModuleCall { name, args, children: b }).view_stmt(),
{
    assert((Statement::ModuleCall { name, args, children: a }).view_stmt()->ModuleCall_children
        =~= stmts_view(a@));
    assert((Statement::ModuleCall { name, args, children: b }).view_stmt()->ModuleCall_children
        =~= stmts_view(b@));
}

#[verifier::spinoff_prover]
fn clone_expr(e: &Expr) -> (r: Expr)
    ensures
        r.view_expr() == e.view_expr(),
    decreases e,
{
    match e {
        Expr::Number(t) => Expr::Number(t.clone()),
        Expr::Bool(b) => Expr::Bool(*b),
        Expr::String(t) => Expr::String(t.clone()),
        Expr::Vector(v) => {
            let items = clone_exprs(v);
            proof {
                lemma_vector_view(items, *v);
            }
            Expr::Vector(items)
        },
        Expr::Range { start, step, end } => Expr::Range {
            start: Box::new(clone_expr(start)),
            step: match step {
                Some(st) => Some(Box::new(clone_expr(st))),
                None => None,
            },
            end: Box::new(clone_expr(end)),
        },
        Expr::Ident(n) => Expr::Ident(n.clone()),
        Expr::Call { name, args } => {
            let items = clone_args(args);
            let n = name.clone();
            proof {
                lemma_call_view(n, items, *args);
            }
            Expr::Call { name: n, args: items }
        },
        Expr::Index { base, index } => Expr::Index {
            base: Box::new(clone_expr(base)),
            index: Box::new(clone_expr(index)),
        },
        Expr::Unary { op, expr } => Expr::Unary { op: *op, expr: Box::new(clone_expr(expr)) },
        Expr::Binary { op, left, right } => Expr::Binary {
            op: *op,
            left: Box::new(clone_expr(left)),
            right: Box::new(clone_expr(right)),
        },
        Expr::Ternary { cond, then_expr, else_expr } => Expr::Ternary {
            cond: Box::new(clone_expr(cond)),
            then_expr: Box::new(clone_expr(then_expr)),
            else_expr: Box::new(clone_expr(else_expr)),
        },
        Expr::ListComp { name, range, body } => Expr::ListComp {
            name: name.clone(),
            range: Box::new(clone_expr(range)),
            body: Box::new(clone_expr(body)),
        },
    }
}

fn clone_exprs(v: &Vec<Expr>) -> (r: Vec<Expr>)
    ensures
        exprs_view(r@) == exprs_view(v@),
    decreases v,
{
    let mut out: Vec<Expr> = Vec::new();
    let mut j: usize = 0;
    while j < v.len()
        invariant
            j <= v.len(),
            out.len() == j,
            forall|m: int| 0 <= m < j ==> #[trigger] out[m].view_expr() == v[m].view_expr(),
        decreases v.len() - j,
    {
        out.push(clone_expr(&v[j]));
        j += 1;
    }
    assert(exprs_view(out@) =~= exprs_view(v@));
    out
}

fn clone_arg(a: &Arg) -> (r: Arg)
    ensures
        r.view_arg() == a.view_arg(),
    decreases a,
{
    match a {
        Arg::Named(n, e) => Arg::Named(n.clone(), clone_expr(e)),
        Arg::Positional(e) => Arg::Positional(clone_expr(e)),
    }
}

fn clone_args(v: &Vec<Arg>) -> (r: Vec<Arg>)
    ensures
        args_view(r@) == args_view(v@),
    decreases v,
{
    let mut out: Vec<Arg> = Vec::new();
    let mut j: usize = 0;
    while j < v.len()
        invariant
            j <= v.len(),
            out.len() == j,
            forall|m: int| 0 <= m < j ==> #[trigger] out[m].view_arg() == v[m].view_arg(),
        decreases v.len() - j,
    {
        out.push(clone_arg(&v[j]));
        j += 1;
    }
    assert(args_view(out@) =~= args_view(v@));
    out
}

fn clone_param(p: &Param) -> (r: Param)
    ensures
        r.view_param() == p.view_param(),
{
    Param {
        name: p.name.clone(),
        default: match &p.default {
            Some(e) => Some(clone_expr(e)),
            None => None,
        },
    }
}

fn clone_params(v: &Vec<Param>) -> (r: Vec<Param>)
    ensures
        params_view(r@) == params_view(v@),
{
    let mut out: Vec<Param> = Vec::new();
    let mut j: usize = 0;
    while j < v.len()
        invariant
            j <= v.len(),
            out.len() == j,
            forall|m: int| 0 <= m < j ==> #[trigger] out[m].view_param() == v[m].view_param(),
        decreases v.len() - j,
    {
        out.push(clone_param(&v[j]));
        j += 1;
    }
    assert(params_view(out@) =~= params_view(v@));
    out
}

#[verifier::spinoff_prover]
fn clone_stmt(st: &Statement) -> (r: Statement)
    ensures
        r.view_stmt() == st.view_stmt(),
    decreases st,
{
    match st {
        Statement::Assign { name, value } => Statement::Assign {
            name: name.clone(),
            value: clone_expr(value),
        },
        Statement::ModuleDef { name, params, body } => {
            let n = name.clone();
            let ps = clone_params(params);
            let items = clone_stmts(body);
            proof {
                lemma_module_def_view(n, ps, items, *body);
            }
            Statement::ModuleDef { name: n, params: ps, body: items }
        },
        Statement::FunctionDef { name, params, body } => Statement::FunctionDef {
            name: name.clone(),
            params: clone_params(params),
            body: clone_expr(body),
        },
        Statement::ModuleCall { name, args, children } => {
            let n = name.clone();
            let a2 = clone_args(args);
            let items = clone_stmts(children);
            proof {
                lemma_module_call_view(n, a2, items, *children);
            }
            Statement::ModuleCall { name: n, args: a2, children: items }
        },
        Statement::If { cond, then_branch, else_branch } => Statement::If {
            cond: clone_expr(cond),
            then_branch: Box::new(clone_stmt(then_branch)),
            else_branch: match else_branch {
                Some(b) => Some(Box::new(clone_stmt(b))),
                None => None,
            },
        },
        Statement::For { name, range, body } => Statement::For {
            name: name.clone(),
            range: clone_expr(range),
            body: Box::new(clone_stmt(body)),
        },
        Statement::Block(stmts) => {
            let items = clone_stmts(stmts);
            proof {
                lemma_block_view(items, *stmts);
            }
            Statement::Block(items)
        },
        Statement::ExprStmt(e) => Statement::ExprStmt(clone_expr(e)),
    }
}

fn clone_stmts(v: &Vec<Statement>) -> (r: Vec<Statement>)
    ensures
        stmts_view(r@) == stmts_view(v@),
    decreases v,
{
    let mut out: Vec<Statement> = Vec::new();
    let mut j: usize = 0;
    while j < v.len()
        invariant
            j <= v.len(),
            out.len() == j,
            forall|m: int| 0 <= m < j ==> #[trigger] out[m].view_stmt() == v[m].view_stmt(),
        decreases v.len() - j,
    {
        out.push(clone_stmt(&v[j]));
        j += 1;
    }
    assert(stmts_view(out@) =~= stmts_view(v@));
    out
}

impl Clone for Expr {
    fn clone(&self) -> (res: Self)
        ensures
            res.view_expr() == self.view_expr(),
    {
        clone_expr(self)
    }
}

impl Clone for Arg {
    fn clone(&self) -> (res: Self)
        ensures
            res.view_arg() == self.view_arg(),
    {
        clone_arg(self)
    }
}

impl Clone for Param {
    fn clone(&self) -> (res: Self)
        ensures
            res.view_param() == self.view_param(),
    {
        clone_param(self)
    }
}

impl Clone for Statement {
    fn clone(&self) -> (res: Self)
        ensures
            res.view_stmt() == self.view_stmt(),
    {
        clone_stmt(self)
    }
}

impl Clone for Program {
    fn clone(&self) -> (res: Self)
        ensures
            res.view_program() == self.view_program(),
    {
        Program { statements: clone_stmts(&self.statements) }
    }
}

} // verus!
