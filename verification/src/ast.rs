//! Abstract syntax tree of the Augur language.
use vstd::prelude::*;

verus! {

/// Byte-range in the source text (`start..end`), counted in characters.
#[derive(Debug, Clone, Copy, PartialEq, Eq, Structural)]
pub struct Span {
    /// Inclusive start offset.
    pub start: usize,
    /// Exclusive end offset.
    pub end: usize,
}

impl Span {
    /// Construct a span from offsets.
    pub fn new(start: usize, end: usize) -> (s: Span)
        ensures
            s.start == start,
            s.end == end,
    {
        Span { start, end }
    }
}

/// Binary arithmetic operator.
#[derive(Debug, Clone, Copy, PartialEq, Eq, Structural)]
pub enum BinOp {
    Add,
    Sub,
    Mul,
    Div,
}

/// Comparison operator used in `if` conditions.
#[derive(Debug, Clone, Copy, PartialEq, Eq, Structural)]
pub enum CmpOp {
    Gt,
    Lt,
    Ge,
    Le,
    Eq,
    Ne,
}

/// An expression in the Augur language.
#[derive(Debug, PartialEq)]
pub enum Expr {
    /// Numeric literal, as written in the source.
    Num(String),
    /// Variable reference.
    Var(String),
    /// Unary negation.
    Neg(Box<Expr>),
    /// Parenthesised sub-expression.
    Paren(Box<Expr>),
    /// Function or distribution constructor call.
    Call { name: String, args: Vec<Expr> },
    /// Binary arithmetic expression.
    Bin { op: BinOp, lhs: Box<Expr>, rhs: Box<Expr> },
    /// Comparison expression.
    Cmp { op: CmpOp, lhs: Box<Expr>, rhs: Box<Expr> },
}

/// The mathematical content of an [`Expr`].
pub enum ExprV {
    Num(Seq<char>),
    Var(Seq<char>),
    Neg(Box<ExprV>),
    Paren(Box<ExprV>),
    Call { name: Seq<char>, args: Seq<ExprV> },
    Bin { op: BinOp, lhs: Box<ExprV>, rhs: Box<ExprV> },
    Cmp { op: CmpOp, lhs: Box<ExprV>, rhs: Box<ExprV> },
}

/// The view of an expression.
pub open spec fn expr_v(e: Expr) -> ExprV
    decreases e,
{
    match e {
        Expr::Num(s) => ExprV::Num(s@),
        Expr::Var(s) => ExprV::Var(s@),
        Expr::Neg(b) => ExprV::Neg(Box::new(expr_v(*b))),
        Expr::Paren(b) => ExprV::Paren(Box::new(expr_v(*b))),
        Expr::Call { name, args } => ExprV::Call {
            name: name@,
            args: exprs_v(args@),
        },
        Expr::Bin { op, lhs, rhs } => ExprV::Bin {
            op,
            lhs: Box::new(expr_v(*lhs)),
            rhs: Box::new(expr_v(*rhs)),
        },
        Expr::Cmp { op, lhs, rhs } => ExprV::Cmp {
            op,
            lhs: Box::new(expr_v(*lhs)),
            rhs: Box::new(expr_v(*rhs)),
        },
    }
}

/// The views of a sequence of expressions.
pub open spec fn exprs_v(s: Seq<Expr>) -> Seq<ExprV>
    decreases s,
{
    if s.len() == 0 {
        seq![]
    } else {
        exprs_v(s.drop_last()).push(expr_v(s.last()))
    }
}

impl View for Expr {
    type V = ExprV;

    open spec fn view(&self) -> ExprV {
        expr_v(*self)
    }
}

/// Proof that the view of a sequence of expressions is taken elementwise.
pub proof fn lemma_exprs_v(s: Seq<Expr>)
    ensures
        exprs_v(s).len() == s.len(),
        forall|i: int| 0 <= i < s.len() ==> #[trigger] exprs_v(s)[i] == expr_v(s[i]),
    decreases s.len(),
{
    if s.len() > 0 {
        lemma_exprs_v(s.drop_last());
        assert forall|i: int| 0 <= i < s.len() implies #[trigger] exprs_v(s)[i] == expr_v(s[i]) by {
            if i < s.len() - 1 {
                assert(s.drop_last()[i] == s[i]);
            }
        }
    }
}

/// A statement of an Augur program.
#[derive(Debug, PartialEq)]
pub enum Stmt {
    /// `let name ~ Dist(...)` — a random variable with a prior distribution.
    Prior { name: String, dist: Expr, span: Span },
    /// `let name = expr` — a deterministic (uncertainty-carrying) binding.
    Let { name: String, value: Expr, span: Span },
    /// `observe Dist(...) = value` — likelihood / conditioning statement.
    Observe { dist: Expr, value: Expr, span: Span },
    /// `if cond { ... } else { ... }` — deterministic control flow.
    If { cond: Expr, then_body: Vec<Stmt>, else_body: Vec<Stmt>, span: Span },
}

/// The mathematical content of a [`Stmt`].
pub enum StmtV {
    Prior { name: Seq<char>, dist: ExprV, span: Span },
    Let { name: Seq<char>, value: ExprV, span: Span },
    Observe { dist: ExprV, value: ExprV, span: Span },
    If { cond: ExprV, then_body: Seq<StmtV>, else_body: Seq<StmtV>, span: Span },
}

/// The view of a statement.
pub open spec fn stmt_v(s: Stmt) -> StmtV
    decreases s,
{
    match s {
        Stmt::Prior { name, dist, span } => StmtV::Prior { name: name@, dist: dist@, span },
        Stmt::Let { name, value, span } => StmtV::Let { name: name@, value: value@, span },
        Stmt::Observe { dist, value, span } => StmtV::Observe { dist: dist@, value: value@, span },
        Stmt::If { cond, then_body, else_body, span } => StmtV::If {
            cond: cond@,
            then_body: stmts_v(then_body@),
            else_body: stmts_v(else_body@),
            span,
        },
    }
}

/// The views of a sequence of statements.
pub open spec fn stmts_v(s: Seq<Stmt>) -> Seq<StmtV>
    decreases s,
{
    if s.len() == 0 {
        seq![]
    } else {
        stmts_v(s.drop_last()).push(stmt_v(s.last()))
    }
}

impl View for Stmt {
    type V = StmtV;

    open spec fn view(&self) -> StmtV {
        stmt_v(*self)
    }
}

/// Proof that the view of a sequence of statements is taken elementwise.
pub proof fn lemma_stmts_v(s: Seq<Stmt>)
    ensures
        stmts_v(s).len() == s.len(),
        forall|i: int| 0 <= i < s.len() ==> #[trigger] stmts_v(s)[i] == stmt_v(s[i]),
    decreases s.len(),
{
    if s.len() > 0 {
        lemma_stmts_v(s.drop_last());
        assert forall|i: int| 0 <= i < s.len() implies #[trigger] stmts_v(s)[i] == stmt_v(s[i]) by {
            if i < s.len() - 1 {
                assert(s.drop_last()[i] == s[i]);
            }
        }
    }
}

/// A parsed Augur model: an ordered sequence of statements.
#[derive(Debug, PartialEq)]
pub struct Program {
    /// Top-level statements in source order.
    pub statements: Vec<Stmt>,
}

impl View for Program {
    type V = Seq<StmtV>;

    open spec fn view(&self) -> Seq<StmtV> {
        stmts_v(self.statements@)
    }
}

impl Clone for Expr {
    fn clone(&self) -> (r: Self)
        ensures
            r@ == self@,
    {
        crate::lower::clone_expr(self)
    }
}

/// A copy of a statement.
pub fn clone_stmt(s: &Stmt) -> (r: Stmt)
    ensures
        r@ == s@,
    decreases s, 1nat,
{
    match s {
        Stmt::Prior { name, dist, span } => Stmt::Prior {
            name: name.clone(),
            dist: crate::lower::clone_expr(dist),
            span: *span,
        },
        Stmt::Let { name, value, span } => Stmt::Let {
            name: name.clone(),
            value: crate::lower::clone_expr(value),
            span: *span,
        },
        Stmt::Observe { dist, value, span } => Stmt::Observe {
            dist: crate::lower::clone_expr(dist),
            value: crate::lower::clone_expr(value),
            span: *span,
        },
        Stmt::If { cond, then_body, else_body, span } => {
            proof {
                assert(decreases_to!(*s => *then_body));
                assert(decreases_to!(*s => *else_body));
            }
            Stmt::If {
                cond: crate::lower::clone_expr(cond),
                then_body: clone_stmts(then_body),
                else_body: clone_stmts(else_body),
                span: *span,
            }
        },
    }
}

/// A copy of a sequence of statements.
pub fn clone_stmts(v: &Vec<Stmt>) -> (r: Vec<Stmt>)
    ensures
        stmts_v(r@) == stmts_v(v@),
    decreases v, 0nat,
{
    proof {
        lemma_stmts_v(v@);
        assert(decreases_to!(*v => v@));
        assert forall|k: int| 0 <= k < v@.len() implies decreases_to!(*v => #[trigger] v@[k]) by {
            assert(decreases_to!(v@ => v@[k]));
        }
    }
    let mut r: Vec<Stmt> = Vec::new();
    let mut i: usize = 0;
    while i < v.len()
        invariant
            forall|k: int| 0 <= k < v@.len() ==> decreases_to!(*v => #[trigger] v@[k]),
            i <= v@.len(),
            stmts_v(r@) == stmts_v(v@.take(i as int)),
        decreases v.len() - i,
    {
        let c = clone_stmt(&v[i]);
        let ghost before = r@;
        r.push(c);
        proof {
            assert(r@.drop_last() =~= before);
            assert(v@.take(i + 1).drop_last() =~= v@.take(i as int));
        }
        i += 1;
    }
    proof {
        assert(v@.take(v@.len() as int) =~= v@);
    }
    r
}

impl Clone for Stmt {
    fn clone(&self) -> (r: Self)
        ensures
            r@ == self@,
    {
        clone_stmt(self)
    }
}

impl Clone for Program {
    fn clone(&self) -> (r: Self)
        ensures
            r@ == self@,
    {
        Program { statements: clone_stmts(&self.statements) }
    }
}

} // verus!
