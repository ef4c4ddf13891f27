//! Typed intermediate representation: lowering a parsed program into a
//! [`Model`], with type-checking and static analysis of degenerate
//! distribution parameters.
//!
//! The model keeps every statement as written (the items are the program's
//! statements), records the prior variables in declaration order, and the
//! checker reports undeclared and redefined variables, unknown distributions,
//! arity mismatches, distributions used as values, and warns about constant
//! parameters outside a family's domain.
use vstd::prelude::*;
use crate::ast::{Span, Expr, ExprV, exprs_v, lemma_exprs_v, Stmt, StmtV, stmts_v, lemma_stmts_v, Program};
use crate::num::{
    lit_wf, lit_digits, frac_len, lit_le, lit_is_zero, digits_value, pow10, all_digits, literal_digits,
    scaled_le, digits_zero,
};
use crate::util::{decimal, push_decimal, str_eq, names_v, contains_name};

verus! {

/// How serious a type-checking diagnostic is.
#[derive(Debug, Clone, Copy, PartialEq, Eq, Structural)]
pub enum Severity {
    Error,
    Warning,
}

/// A type-checking diagnostic.
#[derive(Debug, Clone, PartialEq)]
pub struct Diagnostic {
    pub severity: Severity,
    pub message: String,
    pub span: Span,
}

/// The mathematical content of a [`Diagnostic`].
pub struct LDiagV {
    pub severity: Severity,
    pub message: Seq<char>,
    pub span: Span,
}

impl View for Diagnostic {
    type V = LDiagV;

    open spec fn view(&self) -> LDiagV {
        LDiagV { severity: self.severity, message: self.message@, span: self.span }
    }
}

/// Views of a sequence of diagnostics.
pub open spec fn ldiags_view(v: Seq<Diagnostic>) -> Seq<LDiagV> {
    v.map_values(|d: Diagnostic| d@)
}

impl Diagnostic {
    /// An error.
    pub fn error(message: &str, span: Span) -> (d: Diagnostic)
        ensures
            d@ == (LDiagV { severity: Severity::Error, message: message@, span }),
    {
        Diagnostic { severity: Severity::Error, message: String::from_str(message), span }
    }

    /// A warning.
    pub fn warning(message: &str, span: Span) -> (d: Diagnostic)
        ensures
            d@ == (LDiagV { severity: Severity::Warning, message: message@, span }),
    {
        Diagnostic { severity: Severity::Warning, message: String::from_str(message), span }
    }

    /// Whether this diagnostic is an error.
    pub fn is_error(&self) -> (b: bool)
        ensures
            b == (self.severity == Severity::Error),
    {
        self.severity == Severity::Error
    }
}

/// An item of a lowered model.
#[derive(Debug, PartialEq)]
pub enum ModelItem {
    /// A random variable with a prior distribution. Sampled during inference.
    Prior { name: String, dist: Expr, span: Span },
    /// A deterministic binding whose value carries the uncertainty of its inputs.
    Let { name: String, value: Expr, span: Span },
    /// A likelihood / conditioning statement.
    Observe { dist: Expr, value: Expr, span: Span },
    /// Deterministic control flow that gates the enclosed items at run time.
    If { cond: Expr, then_items: Vec<ModelItem>, else_items: Vec<ModelItem>, span: Span },
}

/// The view of a model item: the statement it stands for.
pub open spec fn item_v(s: ModelItem) -> StmtV
    decreases s,
{
    match s {
        ModelItem::Prior { name, dist, span } => StmtV::Prior { name: name@, dist: dist@, span },
        ModelItem::Let { name, value, span } => StmtV::Let { name: name@, value: value@, span },
        ModelItem::Observe { dist, value, span } => StmtV::Observe { dist: dist@, value: value@, span },
        ModelItem::If { cond, then_items, else_items, span } => StmtV::If {
            cond: cond@,
            then_body: items_v(then_items@),
            else_body: items_v(else_items@),
            span,
        },
    }
}

/// The views of a sequence of model items.
pub open spec fn items_v(s: Seq<ModelItem>) -> Seq<StmtV>
    decreases s,
{
    if s.len() == 0 {
        seq![]
    } else {
        items_v(s.drop_last()).push(item_v(s.last()))
    }
}

/// Proof that the view of a sequence of model items is taken elementwise.
pub proof fn lemma_items_v(s: Seq<ModelItem>)
    ensures
        items_v(s).len() == s.len(),
        forall|i: int| 0 <= i < s.len() ==> #[trigger] items_v(s)[i] == item_v(s[i]),
    decreases s.len(),
{
    if s.len() > 0 {
        lemma_items_v(s.drop_last());
        assert forall|i: int| 0 <= i < s.len() implies #[trigger] items_v(s)[i] == item_v(s[i]) by {
            if i < s.len() - 1 {
                assert(s.drop_last()[i] == s[i]);
            }
        }
    }
}

impl View for ModelItem {
    type V = StmtV;

    open spec fn view(&self) -> StmtV {
        item_v(*self)
    }
}

/// A lowered model.
#[derive(Debug, PartialEq)]
pub struct Model {
    pub items: Vec<ModelItem>,
    /// Names of every prior variable, in declaration order: the shape of the
    /// vector sampled by the inference engines.
    pub prior_order: Vec<String>,
}

/// The model and the diagnostics of lowering.
pub struct LowerResult {
    pub model: Model,
    pub diagnostics: Vec<Diagnostic>,
}

// ---------------------------------------------------------------------------
// Specification
// ---------------------------------------------------------------------------

/// The number of parameters of a known distribution family.
pub open spec fn dist_arity(name: Seq<char>) -> Option<nat> {
    if name == "Normal"@ || name == "Beta"@ || name == "Gamma"@ || name == "Uniform"@ || name == "Binomial"@ {
        Some(2)
    } else if name == "HalfNormal"@ || name == "Exponential"@ || name == "Poisson"@ || name == "Bernoulli"@ {
        Some(1)
    } else {
        None
    }
}

/// An error at the (unknown) position of an expression.
pub open spec fn lerr(m: Seq<char>) -> LDiagV {
    LDiagV { severity: Severity::Error, message: m, span: Span { start: 0, end: 0 } }
}

/// Diagnostics for an expression used as a numeric value.
pub open spec fn check_value(e: ExprV, bound: Seq<Seq<char>>) -> Seq<LDiagV>
    decreases e,
{
    match e {
        ExprV::Num(_) => seq![],
        ExprV::Var(n) => if bound.contains(n) {
            seq![]
        } else {
            seq![lerr("use of undeclared variable `"@ + n + "`"@)]
        },
        ExprV::Neg(x) => check_value(*x, bound),
        ExprV::Paren(x) => check_value(*x, bound),
        ExprV::Bin { lhs, rhs, .. } => check_value(*lhs, bound) + check_value(*rhs, bound),
        ExprV::Cmp { lhs, rhs, .. } => check_value(*lhs, bound) + check_value(*rhs, bound),
        ExprV::Call { name, args } => seq![lerr("`"@ + name + "(..)` is a distribution, not a numeric value"@)]
            + check_values(args, bound),
    }
}

/// Diagnostics for a sequence of value expressions, in order.
pub open spec fn check_values(s: Seq<ExprV>, bound: Seq<Seq<char>>) -> Seq<LDiagV>
    decreases s,
{
    if s.len() == 0 {
        seq![]
    } else {
        check_values(s.drop_last(), bound) + check_value(s.last(), bound)
    }
}

/// Diagnostics for the number of arguments of a distribution constructor.
pub open spec fn arity_diags(name: Seq<char>, n: nat) -> Seq<LDiagV> {
    match dist_arity(name) {
        Some(a) => if a != n {
            seq![lerr("`"@ + name + "` expects "@ + decimal(a) + " argument(s), found "@ + decimal(n))]
        } else {
            seq![]
        },
        None => seq![lerr("`"@ + name + "` is not a known distribution"@)],
    }
}

/// A compile-time constant: a (negated, parenthesised) literal, as its sign
/// and its literal text.
pub open spec fn const_value(e: ExprV) -> Option<(bool, Seq<char>)>
    decreases e,
{
    match e {
        ExprV::Num(l) => if lit_wf(l) { Some((false, l)) } else { None },
        ExprV::Neg(x) => match const_value(*x) {
            Some((n, l)) => Some((!n, l)),
            None => None,
        },
        ExprV::Paren(x) => const_value(*x),
        _ => None,
    }
}

/// The constants of all arguments, when every argument is one.
pub open spec fn const_values(s: Seq<ExprV>) -> Option<Seq<(bool, Seq<char>)>>
    decreases s.len(),
{
    if s.len() == 0 {
        Some(seq![])
    } else {
        match (const_values(s.drop_last()), const_value(s.last())) {
            (Some(cs), Some(c)) => Some(cs.push(c)),
            _ => None,
        }
    }
}

/// The constant is at most zero.
pub open spec fn le0(c: (bool, Seq<char>)) -> bool {
    c.0 || lit_is_zero(c.1)
}

/// The constant is below zero.
pub open spec fn lt0(c: (bool, Seq<char>)) -> bool {
    c.0 && !lit_is_zero(c.1)
}

/// The constant lies in `[0, 1]`.
pub open spec fn in01(c: (bool, Seq<char>)) -> bool {
    if c.0 {
        lit_is_zero(c.1)
    } else {
        digits_value(lit_digits(c.1)) <= pow10(frac_len(c.1))
    }
}

/// `x <= y` for signed constants.
pub open spec fn sle(x: (bool, Seq<char>), y: (bool, Seq<char>)) -> bool {
    if x.0 && y.0 {
        lit_le(y.1, x.1)
    } else if x.0 {
        true
    } else if y.0 {
        lit_is_zero(x.1) && lit_is_zero(y.1)
    } else {
        lit_le(x.1, y.1)
    }
}

/// Constant parameters outside a family's domain: a non-positive scale or
/// rate, an empty or reversed `Uniform` range, a negative `Binomial` count,
/// a `Bernoulli` probability outside `[0, 1]`.
pub open spec fn is_degenerate(name: Seq<char>, cs: Seq<(bool, Seq<char>)>) -> bool {
    if name == "Normal"@ || name == "HalfNormal"@ {
        cs.len() == 0 || le0(cs.last())
    } else if name == "Uniform"@ {
        cs.len() == 2 && sle(cs[1], cs[0])
    } else if name == "Beta"@ || name == "Gamma"@ {
        exists|i: int| 0 <= i < cs.len() && le0(#[trigger] cs[i])
    } else if name == "Exponential"@ || name == "Poisson"@ {
        cs.len() == 0 || le0(cs[0])
    } else if name == "Binomial"@ {
        cs.len() > 0 && lt0(cs[0])
    } else if name == "Bernoulli"@ {
        cs.len() > 0 && !in01(cs[0])
    } else {
        false
    }
}

/// The warning for degenerate constant parameters, if any.
pub open spec fn degenerate_diags(name: Seq<char>, args: Seq<ExprV>) -> Seq<LDiagV> {
    match const_values(args) {
        Some(cs) => if is_degenerate(name, cs) {
            seq![LDiagV {
                severity: Severity::Warning,
                message: "degenerate parameters for `"@ + name + "` (non-positive or invalid range)"@,
                span: Span { start: 0, end: 0 },
            }]
        } else {
            seq![]
        },
        None => seq![],
    }
}

/// Diagnostics for an expression used as a distribution.
pub open spec fn check_dist(e: ExprV, bound: Seq<Seq<char>>) -> Seq<LDiagV> {
    match e {
        ExprV::Call { name, args } => arity_diags(name, args.len()) + check_values(args, bound)
            + degenerate_diags(name, args),
        _ => seq![lerr("expected a distribution constructor (e.g. `Normal(0, 1)`)"@)],
    }
}

/// The error for a name that is bound already.
pub open spec fn dup_diags(name: Seq<char>, bound: Seq<Seq<char>>, span: Span) -> Seq<LDiagV> {
    if bound.contains(name) {
        seq![LDiagV { severity: Severity::Error, message: "variable `"@ + name + "` is already defined"@, span }]
    } else {
        seq![]
    }
}

/// The state of lowering: the names bound so far, the priors declared, and
/// the diagnostics raised.
pub struct LowS {
    pub bound: Seq<Seq<char>>,
    pub priors: Seq<Seq<char>>,
    pub d: Seq<LDiagV>,
}

/// Lowering one statement with the names `bound` in scope.
pub open spec fn low_stmt(s: StmtV, bound: Seq<Seq<char>>) -> LowS
    decreases s,
{
    match s {
        StmtV::Prior { name, dist, span } => LowS {
            bound: bound.push(name),
            priors: seq![name],
            d: check_dist(dist, bound) + dup_diags(name, bound, span),
        },
        StmtV::Let { name, value, span } => LowS {
            bound: bound.push(name),
            priors: seq![],
            d: check_value(value, bound) + dup_diags(name, bound, span),
        },
        StmtV::Observe { dist, value, .. } => LowS {
            bound,
            priors: seq![],
            d: check_dist(dist, bound) + check_value(value, bound),
        },
        StmtV::If { cond, then_body, else_body, .. } => {
            let t = low_stmts(then_body, bound);
            let e = low_stmts(else_body, t.bound);
            LowS { bound: e.bound, priors: t.priors + e.priors, d: check_value(cond, bound) + t.d + e.d }
        },
    }
}

/// Lowering statements in order; names bound by one are in scope for the
/// next, including across `if`/`else` bodies.
pub open spec fn low_stmts(ss: Seq<StmtV>, bound: Seq<Seq<char>>) -> LowS
    decreases ss,
{
    if ss.len() == 0 {
        LowS { bound, priors: seq![], d: seq![] }
    } else {
        let a = low_stmts(ss.drop_last(), bound);
        let b = low_stmt(ss.last(), a.bound);
        LowS { bound: b.bound, priors: a.priors + b.priors, d: a.d + b.d }
    }
}

// ---------------------------------------------------------------------------
// Executable checker
// ---------------------------------------------------------------------------

/// The number of parameters of a known distribution family.
pub fn known_dist_arity(name: &str) -> (r: Option<usize>)
    ensures
        r matches Some(a) ==> dist_arity(name@) == Some(a as nat),
        r is None ==> dist_arity(name@) is None,
{
    if str_eq(name, "Normal") || str_eq(name, "Beta") || str_eq(name, "Gamma") || str_eq(name, "Uniform")
        || str_eq(name, "Binomial") {
        Some(2)
    } else if str_eq(name, "HalfNormal") || str_eq(name, "Exponential") || str_eq(name, "Poisson")
        || str_eq(name, "Bernoulli") {
        Some(1)
    } else {
        None
    }
}

/// A copy of an expression.
pub fn clone_expr(e: &Expr) -> (r: Expr)
    ensures
        r@ == e@,
    decreases e,
{
    match e {
        Expr::Num(l) => Expr::Num(l.clone()),
        Expr::Var(n) => Expr::Var(n.clone()),
        Expr::Neg(x) => Expr::Neg(Box::new(clone_expr(x))),
        Expr::Paren(x) => Expr::Paren(Box::new(clone_expr(x))),
        Expr::Call { name, args } => {
            proof {
                assert(decreases_to!(*e => *args));
                assert(decreases_to!(*args => args@));
                assert forall|k: int| 0 <= k < args@.len() implies decreases_to!(*e => #[trigger] args@[k]) by {
                    assert(decreases_to!(args@ => args@[k]));
                }
                lemma_exprs_v(args@);
            }
            let mut out: Vec<Expr> = Vec::new();
            let mut i: usize = 0;
            while i < args.len()
                invariant
                    forall|k: int| 0 <= k < args@.len() ==> decreases_to!(*e => #[trigger] args@[k]),
                    i <= args@.len(),
                    exprs_v(out@) == exprs_v(args@.take(i as int)),
                decreases args.len() - i,
            {
                let c = clone_expr(&args[i]);
                let ghost o = out@;
                out.push(c);
                proof {
                    assert(out@.drop_last() =~= o);
                    assert(args@.take(i + 1).drop_last() =~= args@.take(i as int));
                    assert(args@.take(i + 1).last() == args@[i as int]);
                }
                i += 1;
            }
            proof {
                assert(args@.take(args@.len() as int) =~= args@);
            }
            Expr::Call { name: name.clone(), args: out }
        },
        Expr::Bin { op, lhs, rhs } => Expr::Bin {
            op: *op,
            lhs: Box::new(clone_expr(lhs)),
            rhs: Box::new(clone_expr(rhs)),
        },
        Expr::Cmp { op, lhs, rhs } => Expr::Cmp {
            op: *op,
            lhs: Box::new(clone_expr(lhs)),
            rhs: Box::new(clone_expr(rhs)),
        },
    }
}

fn push_err(diags: &mut Vec<Diagnostic>, m: String)
    ensures
        ldiags_view(final(diags)@) == ldiags_view(old(diags)@).push(lerr(m@)),
{
    diags.push(Diagnostic { severity: Severity::Error, message: m, span: Span::new(0, 0) });
    proof {
        assert(ldiags_view(final(diags)@) =~= ldiags_view(old(diags)@).push(lerr(m@)));
    }
}

/// A message made of a prefix, a name and a suffix.
fn named_message(prefix: &str, name: &String, suffix: &str) -> (m: String)
    ensures
        m@ == prefix@ + name@ + suffix@,
{
    let mut m = String::from_str(prefix);
    m.append(name.as_str());
    m.append(suffix);
    m
}

/// Checks an expression used as a numeric value.
fn check_value_expr(e: &Expr, bound: &Vec<String>, diags: &mut Vec<Diagnostic>)
    ensures
        ldiags_view(final(diags)@) == ldiags_view(old(diags)@) + check_value(e@, names_v(bound@)),
    decreases e,
{
    let ghost b = names_v(bound@);
    match e {
        Expr::Num(_) => {
            proof {
                assert(ldiags_view(diags@) =~= ldiags_view(old(diags)@) + check_value(e@, b));
            }
        },
        Expr::Var(name) => {
            if !contains_name(bound, name) {
                push_err(diags, named_message("use of undeclared variable `", name, "`"));
            }
            proof {
                assert(ldiags_view(diags@) =~= ldiags_view(old(diags)@) + check_value(e@, b));
            }
        },
        Expr::Neg(x) => check_value_expr(x, bound, diags),
        Expr::Paren(x) => check_value_expr(x, bound, diags),
        Expr::Bin { lhs, rhs, .. } => {
            check_value_expr(lhs, bound, diags);
            check_value_expr(rhs, bound, diags);
            proof {
                assert(ldiags_view(diags@) =~= ldiags_view(old(diags)@) + check_value(e@, b));
            }
        },
        Expr::Cmp { lhs, rhs, .. } => {
            check_value_expr(lhs, bound, diags);
            check_value_expr(rhs, bound, diags);
            proof {
                assert(ldiags_view(diags@) =~= ldiags_view(old(diags)@) + check_value(e@, b));
            }
        },
        Expr::Call { name, args } => {
            push_err(diags, named_message("`", name, "(..)` is a distribution, not a numeric value"));
            proof {
                assert(decreases_to!(*e => *args));
                assert(decreases_to!(*args => args@));
                assert forall|k: int| 0 <= k < args@.len() implies decreases_to!(*e => #[trigger] args@[k]) by {
                    assert(decreases_to!(args@ => args@[k]));
                }
            }
            check_values_exec(e, args, bound, diags);
            proof {
                assert(ldiags_view(diags@) =~= ldiags_view(old(diags)@) + check_value(e@, b));
            }
        },
    }
}

/// Checks the arguments `args` of the call `e` as values, in order.
fn check_values_exec(e: &Expr, args: &Vec<Expr>, bound: &Vec<String>, diags: &mut Vec<Diagnostic>)
    requires
        forall|k: int| 0 <= k < args@.len() ==> decreases_to!(*e => #[trigger] args@[k]),
    ensures
        ldiags_view(final(diags)@) == ldiags_view(old(diags)@) + check_values(exprs_v(args@), names_v(bound@)),
    decreases e, 0nat,
{
    let ghost b = names_v(bound@);
    let ghost av = exprs_v(args@);
    proof {
        lemma_exprs_v(args@);
    }
    let mut i: usize = 0;
    while i < args.len()
        invariant
            forall|k: int| 0 <= k < args@.len() ==> decreases_to!(*e => #[trigger] args@[k]),
            i <= args@.len(),
            av == exprs_v(args@),
            av.len() == args@.len(),
            forall|k: int| 0 <= k < args@.len() ==> #[trigger] av[k] == args@[k]@,
            b == names_v(bound@),
            ldiags_view(diags@) == ldiags_view(old(diags)@) + check_values(av.take(i as int), b),
        decreases args.len() - i,
    {
        check_value_expr(&args[i], bound, diags);
        proof {
            assert(av.take(i + 1).drop_last() =~= av.take(i as int));
            assert(av.take(i + 1).last() == av[i as int]);
            assert(ldiags_view(diags@) =~= ldiags_view(old(diags)@) + check_values(av.take(i + 1), b));
        }
        i += 1;
    }
    proof {
        assert(av.take(args@.len() as int) =~= av);
    }
}

/// The constant an expression denotes, as sign, digits and number of digits
/// after the point.
fn const_value_exec(e: &Expr) -> (r: Option<(bool, Vec<char>, usize)>)
    ensures
        r is Some <==> const_value(e@) is Some,
        r matches Some((n, d, f)) ==> {
            let c = const_value(e@)->0;
            &&& n == c.0
            &&& d@ == lit_digits(c.1)
            &&& f == frac_len(c.1)
            &&& lit_wf(c.1)
        },
    decreases e,
{
    match e {
        Expr::Num(l) => match literal_digits(l) {
            Some((d, f)) => Some((false, d, f)),
            None => None,
        },
        Expr::Neg(x) => match const_value_exec(x) {
            Some((n, d, f)) => Some((!n, d, f)),
            None => None,
        },
        Expr::Paren(x) => const_value_exec(x),
        _ => None,
    }
}

proof fn lemma_lit_wf_digits(l: Seq<char>)
    requires
        lit_wf(l),
    ensures
        all_digits(lit_digits(l)),
{
    let ip = int_part_of(l);
    let fp = frac_part_of(l);
    assert forall|i: int| 0 <= i < lit_digits(l).len() implies '0' <= #[trigger] lit_digits(l)[i] <= '9' by {
        if i < ip.len() {
            assert(lit_digits(l)[i] == ip[i]);
        } else {
            assert(lit_digits(l)[i] == fp[i - ip.len()]);
        }
    }
}

spec fn int_part_of(l: Seq<char>) -> Seq<char> {
    crate::num::int_part(l)
}

spec fn frac_part_of(l: Seq<char>) -> Seq<char> {
    crate::num::frac_part(l)
}

/// The constants of all arguments, when every argument is one.
fn const_values_exec(args: &Vec<Expr>) -> (r: Option<Vec<(bool, Vec<char>, usize)>>)
    ensures
        r is Some <==> const_values(exprs_v(args@)) is Some,
        r matches Some(cs) ==> {
            let vs = const_values(exprs_v(args@))->0;
            &&& cs@.len() == vs.len()
            &&& forall|k: int| 0 <= k < vs.len() ==> {
                &&& (#[trigger] cs@[k]).0 == vs[k].0
                &&& cs@[k].1@ == lit_digits(vs[k].1)
                &&& cs@[k].2 == frac_len(vs[k].1)
                &&& lit_wf(vs[k].1)
            }
        },
{
    let ghost av = exprs_v(args@);
    proof {
        lemma_exprs_v(args@);
    }
    let mut cs: Vec<(bool, Vec<char>, usize)> = Vec::new();
    let mut i: usize = 0;
    while i < args.len()
        invariant
            i <= args@.len(),
            av == exprs_v(args@),
            av.len() == args@.len(),
            forall|k: int| 0 <= k < args@.len() ==> #[trigger] av[k] == args@[k]@,
            const_values(av.take(i as int)) is Some,
            ({
                let vs = const_values(av.take(i as int))->0;
                &&& cs@.len() == vs.len()
                &&& forall|k: int| 0 <= k < vs.len() ==> {
                    &&& (#[trigger] cs@[k]).0 == vs[k].0
                    &&& cs@[k].1@ == lit_digits(vs[k].1)
                    &&& cs@[k].2 == frac_len(vs[k].1)
                    &&& lit_wf(vs[k].1)
                }
            }),
        decreases args.len() - i,
    {
        proof {
            assert(av.take(i + 1).drop_last() =~= av.take(i as int));
            assert(av.take(i + 1).last() == av[i as int]);
        }
        match const_value_exec(&args[i]) {
            Some(c) => {
                cs.push(c);
            },
            None => {
                proof {
                    lemma_const_values_none(av, i as int);
                }
                return None;
            },
        }
        i += 1;
    }
    proof {
        assert(av.take(args@.len() as int) =~= av);
    }
    Some(cs)
}

/// Once an argument is not a constant, no longer prefix has constants.
proof fn lemma_const_values_none(av: Seq<ExprV>, i: int)
    requires
        0 <= i < av.len(),
        const_value(av[i]) is None,
    ensures
        const_values(av) is None,
    decreases av.len(),
{
    if i < av.len() - 1 {
        assert(av.drop_last()[i] == av[i]);
        lemma_const_values_none(av.drop_last(), i);
    }
}

fn le0_exec(c: &(bool, Vec<char>, usize)) -> (r: bool)
    requires
        all_digits(c.1@),
    ensures
        r == (c.0 || digits_value(c.1@) == 0),
{
    c.0 || digits_zero(&c.1)
}

/// Whether the constants of a call to `name` are degenerate.
fn is_degenerate_exec(name: &String, cs: &Vec<(bool, Vec<char>, usize)>, vs: Ghost<Seq<(bool, Seq<char>)>>) -> (r: bool)
    requires
        cs@.len() == vs@.len(),
        forall|k: int| 0 <= k < vs@.len() ==> {
            &&& (#[trigger] cs@[k]).0 == vs@[k].0
            &&& cs@[k].1@ == lit_digits(vs@[k].1)
            &&& cs@[k].2 == frac_len(vs@[k].1)
            &&& lit_wf(vs@[k].1)
        },
    ensures
        r == is_degenerate(name@, vs@),
{
    let ghost v = vs@;
    proof {
        assert forall|k: int| 0 <= k < v.len() implies all_digits(#[trigger] cs@[k].1@) by {
            assert(cs@[k].0 == v[k].0);
            lemma_lit_wf_digits(v[k].1);
        }
    }
    let n = name.as_str();
    let len = cs.len();
    if str_eq(n, "Normal") || str_eq(n, "HalfNormal") {
        len == 0 || le0_exec(&cs[len - 1])
    } else if str_eq(n, "Uniform") {
        if len != 2 {
            return false;
        }
        let x = &cs[1];
        let y = &cs[0];
        if x.0 && y.0 {
            scaled_le(&y.1, y.2, &x.1, x.2)
        } else if x.0 {
            true
        } else if y.0 {
            digits_zero(&x.1) && digits_zero(&y.1)
        } else {
            scaled_le(&x.1, x.2, &y.1, y.2)
        }
    } else if str_eq(n, "Beta") || str_eq(n, "Gamma") {
        assert(is_degenerate(name@, v) == exists|k: int| 0 <= k < v.len() && le0(#[trigger] v[k]));
        let mut i: usize = 0;
        while i < len
            invariant
                len == cs@.len() == v.len(),
                i <= len,
                forall|k: int| 0 <= k < v.len() ==> all_digits(#[trigger] cs@[k].1@),
                forall|k: int| 0 <= k < v.len() ==> {
                    &&& (#[trigger] cs@[k]).0 == v[k].0
                    &&& cs@[k].1@ == lit_digits(v[k].1)
                },
                forall|k: int| 0 <= k < i ==> !le0(#[trigger] v[k]),
                is_degenerate(name@, v) == exists|k: int| 0 <= k < v.len() && le0(#[trigger] v[k]),
                v == vs@,
            decreases len - i,
        {
            if le0_exec(&cs[i]) {
                assert(le0(v[i as int]));
                return true;
            }
            i += 1;
        }
        false
    } else if str_eq(n, "Exponential") || str_eq(n, "Poisson") {
        len == 0 || le0_exec(&cs[0])
    } else if str_eq(n, "Binomial") {
        len > 0 && cs[0].0 && !digits_zero(&cs[0].1)
    } else if str_eq(n, "Bernoulli") {
        if len == 0 {
            return false;
        }
        let c = &cs[0];
        if c.0 {
            !digits_zero(&c.1)
        } else {
            let mut one: Vec<char> = Vec::new();
            one.push('1');
            proof {
                assert(one@.drop_last() =~= Seq::<char>::empty());
                assert(one@.last() == '1');
                assert(digits_value(Seq::<char>::empty()) == 0);
                assert(digits_value(one@) == 1);
                assert(all_digits(one@));
            }
            !scaled_le(&c.1, c.2, &one, 0)
        }
    } else {
        false
    }
}

/// Checks an expression used as a distribution.
fn check_dist_expr(e: &Expr, bound: &Vec<String>, diags: &mut Vec<Diagnostic>)
    ensures
        ldiags_view(final(diags)@) == ldiags_view(old(diags)@) + check_dist(e@, names_v(bound@)),
{
    let ghost b = names_v(bound@);
    match e {
        Expr::Call { name, args } => {
            let ghost d0 = ldiags_view(diags@);
            match known_dist_arity(name.as_str()) {
                Some(arity) => {
                    if args.len() != arity {
                        let mut m = named_message("`", name, "` expects ");
                        push_decimal(&mut m, arity as u64);
                        m.append(" argument(s), found ");
                        push_decimal(&mut m, args.len() as u64);
                        push_err(diags, m);
                    }
                },
                None => {
                    push_err(diags, named_message("`", name, "` is not a known distribution"));
                },
            }
            let ghost d1 = ldiags_view(diags@);
            proof {
                lemma_exprs_v(args@);
                assert(d1 =~= d0 + arity_diags(name@, exprs_v(args@).len()));
                assert(decreases_to!(*e => *args));
                assert(decreases_to!(*args => args@));
                assert forall|k: int| 0 <= k < args@.len() implies decreases_to!(*e => #[trigger] args@[k]) by {
                    assert(decreases_to!(args@ => args@[k]));
                }
            }
            check_values_exec(e, args, bound, diags);
            let ghost d2 = ldiags_view(diags@);
            match const_values_exec(args) {
                Some(cs) => {
                    let ghost vs = const_values(exprs_v(args@))->0;
                    if is_degenerate_exec(name, &cs, Ghost(vs)) {
                        let m = named_message("degenerate parameters for `", name, "` (non-positive or invalid range)");
                        diags.push(Diagnostic { severity: Severity::Warning, message: m, span: Span::new(0, 0) });
                    }
                },
                None => {},
            }
            proof {
                assert(ldiags_view(diags@) =~= d2 + degenerate_diags(name@, exprs_v(args@)));
                assert(ldiags_view(diags@) =~= ldiags_view(old(diags)@) + check_dist(e@, b));
            }
        },
        _ => {
            push_err(diags, String::from_str("expected a distribution constructor (e.g. `Normal(0, 1)`)"));
            proof {
                assert(ldiags_view(diags@) =~= ldiags_view(old(diags)@) + check_dist(e@, b));
            }
        },
    }
}

/// Lowers a statement, checking it against and extending the names bound
/// so far.
fn lower_stmt(
    s: &Stmt,
    bound: &mut Vec<String>,
    prior_order: &mut Vec<String>,
    diags: &mut Vec<Diagnostic>,
) -> (item: ModelItem)
    ensures
        item@ == s@,
        names_v(final(bound)@) == low_stmt(s@, names_v(old(bound)@)).bound,
        names_v(final(prior_order)@) == names_v(old(prior_order)@) + low_stmt(s@, names_v(old(bound)@)).priors,
        ldiags_view(final(diags)@) == ldiags_view(old(diags)@) + low_stmt(s@, names_v(old(bound)@)).d,
    decreases s, 1nat,
{
    let ghost b0 = names_v(bound@);
    let ghost p0 = names_v(prior_order@);
    let ghost d0 = ldiags_view(diags@);
    match s {
        Stmt::Prior { name, dist, span } => {
            check_dist_expr(dist, bound, diags);
            let ghost d1 = ldiags_view(diags@);
            if contains_name(bound, name) {
                let m = named_message("variable `", name, "` is already defined");
                diags.push(Diagnostic { severity: Severity::Error, message: m, span: *span });
            }
            proof {
                assert(ldiags_view(diags@) =~= d1 + dup_diags(name@, b0, *span));
            }
            bound.push(name.clone());
            prior_order.push(name.clone());
            proof {
                assert(names_v(bound@) =~= b0.push(name@));
                assert(names_v(prior_order@) =~= p0 + seq![name@]);
                assert(ldiags_view(diags@) =~= d0 + low_stmt(s@, b0).d);
            }
            ModelItem::Prior { name: name.clone(), dist: clone_expr(dist), span: *span }
        },
        Stmt::Let { name, value, span } => {
            check_value_expr(value, bound, diags);
            let ghost d1 = ldiags_view(diags@);
            if contains_name(bound, name) {
                let m = named_message("variable `", name, "` is already defined");
                diags.push(Diagnostic { severity: Severity::Error, message: m, span: *span });
            }
            proof {
                assert(ldiags_view(diags@) =~= d1 + dup_diags(name@, b0, *span));
            }
            bound.push(name.clone());
            proof {
                assert(names_v(bound@) =~= b0.push(name@));
                assert(names_v(prior_order@) =~= p0 + Seq::<Seq<char>>::empty());
                assert(ldiags_view(diags@) =~= d0 + low_stmt(s@, b0).d);
            }
            ModelItem::Let { name: name.clone(), value: clone_expr(value), span: *span }
        },
        Stmt::Observe { dist, value, span } => {
            check_dist_expr(dist, bound, diags);
            check_value_expr(value, bound, diags);
            proof {
                assert(names_v(prior_order@) =~= p0 + Seq::<Seq<char>>::empty());
                assert(ldiags_view(diags@) =~= d0 + low_stmt(s@, b0).d);
            }
            ModelItem::Observe { dist: clone_expr(dist), value: clone_expr(value), span: *span }
        },
        Stmt::If { cond, then_body, else_body, span } => {
            check_value_expr(cond, bound, diags);
            let ghost d1 = ldiags_view(diags@);
            proof {
                assert(decreases_to!(*s => *then_body));
                assert(decreases_to!(*s => *else_body));
            }
            let then_items = lower_block(then_body, bound, prior_order, diags);
            let else_items = lower_block(else_body, bound, prior_order, diags);
            proof {
                let t = low_stmts(stmts_v(then_body@), b0);
                let e = low_stmts(stmts_v(else_body@), t.bound);
                assert(names_v(prior_order@) =~= p0 + (t.priors + e.priors));
                assert(ldiags_view(diags@) =~= d0 + (check_value(cond@, b0) + t.d + e.d));
            }
            ModelItem::If { cond: clone_expr(cond), then_items, else_items, span: *span }
        },
    }
}

/// Lowers a sequence of statements in order.
fn lower_block(
    body: &Vec<Stmt>,
    bound: &mut Vec<String>,
    prior_order: &mut Vec<String>,
    diags: &mut Vec<Diagnostic>,
) -> (items: Vec<ModelItem>)
    ensures
        items_v(items@) == stmts_v(body@),
        names_v(final(bound)@) == low_stmts(stmts_v(body@), names_v(old(bound)@)).bound,
        names_v(final(prior_order)@) == names_v(old(prior_order)@) + low_stmts(stmts_v(body@), names_v(old(bound)@)).priors,
        ldiags_view(final(diags)@) == ldiags_view(old(diags)@) + low_stmts(stmts_v(body@), names_v(old(bound)@)).d,
    decreases body, 0nat,
{
    let ghost sv = stmts_v(body@);
    let ghost b0 = names_v(bound@);
    let ghost p0 = names_v(prior_order@);
    let ghost d0 = ldiags_view(diags@);
    proof {
        lemma_stmts_v(body@);
        assert(decreases_to!(*body => body@));
        assert forall|k: int| 0 <= k < body@.len() implies decreases_to!(*body => #[trigger] body@[k]) by {
            assert(decreases_to!(body@ => body@[k]));
        }
    }
    let mut items: Vec<ModelItem> = Vec::new();
    let mut i: usize = 0;
    while i < body.len()
        invariant
            forall|k: int| 0 <= k < body@.len() ==> decreases_to!(*body => #[trigger] body@[k]),
            i <= body@.len(),
            sv == stmts_v(body@),
            sv.len() == body@.len(),
            forall|k: int| 0 <= k < body@.len() ==> #[trigger] sv[k] == body@[k]@,
            items_v(items@) == sv.take(i as int),
            names_v(bound@) == low_stmts(sv.take(i as int), b0).bound,
            names_v(prior_order@) == p0 + low_stmts(sv.take(i as int), b0).priors,
            ldiags_view(diags@) == d0 + low_stmts(sv.take(i as int), b0).d,
        decreases body.len() - i,
    {
        let ghost before = items@;
        let ghost p1 = names_v(prior_order@);
        let ghost d1 = ldiags_view(diags@);
        let item = lower_stmt(&body[i], bound, prior_order, diags);
        items.push(item);
        proof {
            assert(items@.drop_last() =~= before);
            assert(sv.take(i + 1).drop_last() =~= sv.take(i as int));
            assert(sv.take(i + 1).last() == sv[i as int]);
            assert(items_v(items@) =~= sv.take(i + 1));
            let a = low_stmts(sv.take(i as int), b0);
            let b = low_stmt(sv[i as int], a.bound);
            assert(names_v(prior_order@) =~= p0 + (a.priors + b.priors));
            assert(ldiags_view(diags@) =~= d0 + (a.d + b.d));
        }
        i += 1;
    }
    proof {
        assert(sv.take(body@.len() as int) =~= sv);
    }
    items
}

/// Lowers a parsed program into a [`Model`], reporting type errors and
/// warnings about degenerate parameters. The model's items are the program's
/// statements; its prior order lists every `~` binding, in source order,
/// `if`/`else` bodies included.
pub fn lower(program: &Program) -> (r: LowerResult)
    ensures
        items_v(r.model.items@) == program@,
        names_v(r.model.prior_order@) == low_stmts(program@, seq![]).priors,
        ldiags_view(r.diagnostics@) == low_stmts(program@, seq![]).d,
{
    let mut diagnostics: Vec<Diagnostic> = Vec::new();
    let mut prior_order: Vec<String> = Vec::new();
    let mut bound: Vec<String> = Vec::new();
    proof {
        assert(names_v(bound@) =~= Seq::<Seq<char>>::empty());
        assert(names_v(prior_order@) =~= Seq::<Seq<char>>::empty());
        assert(ldiags_view(diagnostics@) =~= Seq::<LDiagV>::empty());
    }
    let items = lower_block(&program.statements, &mut bound, &mut prior_order, &mut diagnostics);
    proof {
        let l = low_stmts(program@, seq![]);
        assert(names_v(prior_order@) =~= l.priors);
        assert(ldiags_view(diagnostics@) =~= l.d);
    }
    LowerResult { model: Model { items, prior_order }, diagnostics }
}

/// A copy of a model item.
pub fn clone_item(s: &ModelItem) -> (r: ModelItem)
    ensures
        r@ == s@,
    decreases s, 1nat,
{
    match s {
        ModelItem::Prior { name, dist, span } => ModelItem::Prior { name: name.clone(), dist: clone_expr(dist), span: *span },
        ModelItem::Let { name, value, span } => ModelItem::Let { name: name.clone(), value: clone_expr(value), span: *span },
        ModelItem::Observe { dist, value, span } => ModelItem::Observe {
            dist: clone_expr(dist),
            value: clone_expr(value),
            span: *span,
        },
        ModelItem::If { cond, then_items, else_items, span } => {
            proof {
                assert(decreases_to!(*s => *then_items));
                assert(decreases_to!(*s => *else_items));
            }
            ModelItem::If {
                cond: clone_expr(cond),
                then_items: clone_items(then_items),
                else_items: clone_items(else_items),
                span: *span,
            }
        },
    }
}

/// A copy of a sequence of model items.
pub fn clone_items(v: &Vec<ModelItem>) -> (r: Vec<ModelItem>)
    ensures
        items_v(r@) == items_v(v@),
    decreases v, 0nat,
{
    proof {
        lemma_items_v(v@);
        assert(decreases_to!(*v => v@));
        assert forall|k: int| 0 <= k < v@.len() implies decreases_to!(*v => #[trigger] v@[k]) by {
            assert(decreases_to!(v@ => v@[k]));
        }
    }
    let mut r: Vec<ModelItem> = Vec::new();
    let mut i: usize = 0;
    while i < v.len()
        invariant
            forall|k: int| 0 <= k < v@.len() ==> decreases_to!(*v => #[trigger] v@[k]),
            i <= v@.len(),
            items_v(r@) == items_v(v@.take(i as int)),
        decreases v.len() - i,
    {
        let c = clone_item(&v[i]);
        let ghost before = r@;
        r.push(c);
        proof {
            assert(r@.drop_last() =~= before);
            assert(v@.take(i + 1).drop_last() =~= v@.take(i as int));
        }
        i += 1;
    }
    proof {
        assert(v@.take(v@.len() as int) =~= v@);
    }
    r
}

impl Clone for ModelItem {
    fn clone(&self) -> (r: Self)
        ensures
            r@ == self@,
    {
        clone_item(self)
    }
}

impl Clone for Model {
    fn clone(&self) -> (r: Self)
        ensures
            items_v(r.items@) == items_v(self.items@),
            names_v(r.prior_order@) == names_v(self.prior_order@),
    {
        let mut prior_order: Vec<String> = Vec::new();
        let mut i: usize = 0;
        while i < self.prior_order.len()
            invariant
                i <= self.prior_order@.len(),
                prior_order@ == self.prior_order@.take(i as int),
            decreases self.prior_order.len() - i,
        {
            prior_order.push(self.prior_order[i].clone());
            proof {
                assert(prior_order@ =~= self.prior_order@.take(i + 1));
            }
            i += 1;
        }
        proof {
            assert(self.prior_order@.take(self.prior_order@.len() as int) =~= self.prior_order@);
        }
        Model { items: clone_items(&self.items), prior_order }
    }
}


/// Checking expressions as values raises errors only.
proof fn lemma_check_value_errors(e: ExprV, bound: Seq<Seq<char>>)
    ensures
        forall|k: int| 0 <= k < check_value(e, bound).len() ==> (#[trigger] check_value(e, bound)[k]).severity
            == Severity::Error,
    decreases e, 1nat,
{
    match e {
        ExprV::Neg(x) => lemma_check_value_errors(*x, bound),
        ExprV::Paren(x) => lemma_check_value_errors(*x, bound),
        ExprV::Bin { lhs, rhs, .. } => {
            lemma_check_value_errors(*lhs, bound);
            lemma_check_value_errors(*rhs, bound);
            let a = check_value(*lhs, bound);
            assert forall|k: int| 0 <= k < check_value(e, bound).len() implies (#[trigger] check_value(e, bound)[k]).severity
                == Severity::Error by {
                if k >= a.len() {
                    assert(check_value(e, bound)[k] == check_value(*rhs, bound)[k - a.len()]);
                } else {
                    assert(check_value(e, bound)[k] == a[k]);
                }
            }
        },
        ExprV::Cmp { lhs, rhs, .. } => {
            lemma_check_value_errors(*lhs, bound);
            lemma_check_value_errors(*rhs, bound);
            let a = check_value(*lhs, bound);
            assert forall|k: int| 0 <= k < check_value(e, bound).len() implies (#[trigger] check_value(e, bound)[k]).severity
                == Severity::Error by {
                if k >= a.len() {
                    assert(check_value(e, bound)[k] == check_value(*rhs, bound)[k - a.len()]);
                } else {
                    assert(check_value(e, bound)[k] == a[k]);
                }
            }
        },
        ExprV::Call { name, args } => {
            lemma_check_values_errors(args, bound);
            let h = seq![lerr("`"@ + name + "(..)` is a distribution, not a numeric value"@)];
            assert forall|k: int| 0 <= k < check_value(e, bound).len() implies (#[trigger] check_value(e, bound)[k]).severity
                == Severity::Error by {
                if k >= 1 {
                    assert(check_value(e, bound)[k] == check_values(args, bound)[k - 1]);
                }
            }
        },
        _ => {},
    }
}

proof fn lemma_check_values_errors(s: Seq<ExprV>, bound: Seq<Seq<char>>)
    ensures
        forall|k: int| 0 <= k < check_values(s, bound).len() ==> (#[trigger] check_values(s, bound)[k]).severity
            == Severity::Error,
    decreases s, 0nat,
{
    if s.len() > 0 {
        lemma_check_values_errors(s.drop_last(), bound);
        lemma_check_value_errors(s.last(), bound);
        let a = check_values(s.drop_last(), bound);
        assert forall|k: int| 0 <= k < check_values(s, bound).len() implies (#[trigger] check_values(s, bound)[k]).severity
            == Severity::Error by {
            if k >= a.len() {
                assert(check_values(s, bound)[k] == check_value(s.last(), bound)[k - a.len()]);
            } else {
                assert(check_values(s, bound)[k] == a[k]);
            }
        }
    }
}

proof fn lemma_const_values_each(s: Seq<ExprV>)
    requires
        forall|i: int| 0 <= i < s.len() ==> (#[trigger] const_value(s[i])) is Some,
    ensures
        const_values(s) matches Some(cs) && cs.len() == s.len()
            && forall|i: int| 0 <= i < s.len() ==> const_value(s[i]) == Some(#[trigger] cs[i]),
    decreases s.len(),
{
    if s.len() > 0 {
        let dl = s.drop_last();
        assert forall|i: int| 0 <= i < dl.len() implies (#[trigger] const_value(dl[i])) is Some by {
            assert(dl[i] == s[i]);
        }
        lemma_const_values_each(dl);
        assert(const_value(s[s.len() - 1]) is Some);
        let cs = const_values(s)->0;
        assert forall|i: int| 0 <= i < s.len() implies const_value(s[i]) == Some(#[trigger] cs[i]) by {
            if i < s.len() - 1 {
                assert(dl[i] == s[i]);
            }
        }
    }
}

/// A `Beta` or `Gamma` distribution whose parameters are all constants is
/// warned about as degenerate exactly when some parameter, in any position,
/// has an exact value at most zero (negative, or zero however written).
pub proof fn lemma_beta_gamma_degenerate(name: Seq<char>, args: Seq<ExprV>, bound: Seq<Seq<char>>)
    requires
        name == "Beta"@ || name == "Gamma"@,
        forall|i: int| 0 <= i < args.len() ==> (#[trigger] const_value(args[i])) is Some,
    ensures
        (exists|k: int| 0 <= k < check_dist(ExprV::Call { name, args }, bound).len()
            && (#[trigger] check_dist(ExprV::Call { name, args }, bound)[k]).severity == Severity::Warning)
            <==> exists|i: int| 0 <= i < args.len() && ({
                let c = const_value(#[trigger] args[i])->0;
                c.0 || digits_value(lit_digits(c.1)) == 0
            }),
        (exists|i: int| 0 <= i < args.len() && ({
            let c = const_value(#[trigger] args[i])->0;
            c.0 || digits_value(lit_digits(c.1)) == 0
        })) ==> check_dist(ExprV::Call { name, args }, bound).last() == (LDiagV {
            severity: Severity::Warning,
            message: "degenerate parameters for `"@ + name + "` (non-positive or invalid range)"@,
            span: Span { start: 0, end: 0 },
        }),
{
    lemma_const_values_each(args);
    lemma_check_values_errors(args, bound);
    let cs = const_values(args)->0;
    let ar = arity_diags(name, args.len());
    let cv = check_values(args, bound);
    let dg = degenerate_diags(name, args);
    let d = check_dist(ExprV::Call { name, args }, bound);
    assert(d == ar + cv + dg);
    assert forall|k: int| 0 <= k < ar.len() implies (#[trigger] ar[k]).severity == Severity::Error by {}
    let low = exists|i: int| 0 <= i < args.len() && ({
        let c = const_value(#[trigger] args[i])->0;
        c.0 || digits_value(lit_digits(c.1)) == 0
    });
    reveal_strlit("Normal");
    reveal_strlit("HalfNormal");
    reveal_strlit("Uniform");
    reveal_strlit("Beta");
    reveal_strlit("Gamma");
    assert(name != "Normal"@ && name != "HalfNormal"@ && name != "Uniform"@) by {
        assert(name[0] == 'B' || name[0] == 'G');
    }
    assert(is_degenerate(name, cs) == exists|i: int| 0 <= i < cs.len() && le0(#[trigger] cs[i]));
    assert(is_degenerate(name, cs) == low) by {
        if low {
            let i = choose|i: int| 0 <= i < args.len() && ({
                let c = const_value(#[trigger] args[i])->0;
                c.0 || digits_value(lit_digits(c.1)) == 0
            });
            assert(le0(cs[i]));
        }
        if is_degenerate(name, cs) {
            let i = choose|i: int| 0 <= i < cs.len() && le0(#[trigger] cs[i]);
            assert(const_value(args[i]) == Some(cs[i]));
        }
    }
    if low {
        assert(d.last() == dg[0]);
        assert(d[d.len() - 1].severity == Severity::Warning);
    } else {
        assert(dg.len() == 0);
        assert forall|k: int| 0 <= k < d.len() implies (#[trigger] d[k]).severity != Severity::Warning by {
            if k < ar.len() {
                assert(d[k] == ar[k]);
            } else {
                assert(d[k] == cv[k - ar.len()]);
            }
        }
    }
}


/// Lowering the program `let p ~ Beta(..)` (or `Gamma`) whose parameters are
/// all constants warns exactly when some parameter has an exact value at
/// most zero.
pub proof fn lemma_beta_gamma_prior_warning(p: Seq<char>, name: Seq<char>, args: Seq<ExprV>, span: Span)
    requires
        name == "Beta"@ || name == "Gamma"@,
        forall|i: int| 0 <= i < args.len() ==> (#[trigger] const_value(args[i])) is Some,
    ensures
        ({
            let d = low_stmts(seq![StmtV::Prior { name: p, dist: ExprV::Call { name, args }, span }], seq![]).d;
            (exists|k: int| 0 <= k < d.len() && (#[trigger] d[k]).severity == Severity::Warning)
                <==> exists|i: int| 0 <= i < args.len() && ({
                    let c = const_value(#[trigger] args[i])->0;
                    c.0 || digits_value(lit_digits(c.1)) == 0
                })
        }),
{
    let st = StmtV::Prior { name: p, dist: ExprV::Call { name, args }, span };
    let ss = seq![st];
    let cd = check_dist(ExprV::Call { name, args }, seq![]);
    lemma_beta_gamma_degenerate(name, args, seq![]);
    assert(ss.drop_last() =~= Seq::<StmtV>::empty());
    assert(dup_diags(p, seq![], span) =~= Seq::<LDiagV>::empty());
    assert(ss.last() == st);
    let a = low_stmts(ss.drop_last(), seq![]);
    assert(a.d == Seq::<LDiagV>::empty());
    assert(a.bound == Seq::<Seq<char>>::empty());
    assert(low_stmt(st, seq![]).d == cd + dup_diags(p, seq![], span));
    let d = low_stmts(ss, seq![]).d;
    assert(d == a.d + low_stmt(st, a.bound).d);
    assert(d =~= cd);
}

} // verus!
