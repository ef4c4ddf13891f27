//! Builds a probabilistic dialect [`Graph`] from a type-checked [`Model`].
//!
//! The builder assumes a model that the checker accepts: every variable is
//! declared before use, every distribution names a known family, and no
//! distribution is used as a value (see [`stmts_ok`]). Fresh SSA values are
//! numbered from 0 in the order the ops are created; a name refers to the
//! value of its latest binding, and bindings made inside an `if`/`else`
//! body stay visible after it.
use vstd::prelude::*;
use crate::ast::{Expr, ExprV, BinOp, CmpOp, StmtV, exprs_v, lemma_exprs_v};
use crate::lower::{
    Model, ModelItem, items_v, low_stmt, low_stmts, LDiagV, Severity, check_value, check_values, check_dist,
    arity_diags, dist_arity, dup_diags, degenerate_diags,
};
use crate::dialect::{
    DistFamily, DistInstance, Graph, Op, OpV, ScalarOp, ValueId, family_of, ops_v, lemma_ops_v,
};
use crate::num::{value_text, literal_value_text};
use crate::util::names_v;
use crate::dialect::scalar_operands;

verus! {

// ---------------------------------------------------------------------------
// What the builder accepts
// ---------------------------------------------------------------------------

/// An expression that can be built as a value with the names `bound` in scope.
pub open spec fn val_ok(e: ExprV, bound: Seq<Seq<char>>) -> bool
    decreases e,
{
    match e {
        ExprV::Num(_) => true,
        ExprV::Var(n) => bound.contains(n),
        ExprV::Neg(x) => val_ok(*x, bound),
        ExprV::Paren(x) => val_ok(*x, bound),
        ExprV::Bin { lhs, rhs, .. } => val_ok(*lhs, bound) && val_ok(*rhs, bound),
        ExprV::Cmp { lhs, rhs, .. } => val_ok(*lhs, bound) && val_ok(*rhs, bound),
        ExprV::Call { .. } => false,
    }
}

/// A distribution expression that can be built: a known family applied to
/// buildable values.
pub open spec fn dist_ok(e: ExprV, bound: Seq<Seq<char>>) -> bool {
    match e {
        ExprV::Call { name, args } => family_of(name) is Some
            && forall|i: int| 0 <= i < args.len() ==> val_ok(#[trigger] args[i], bound),
        _ => false,
    }
}

/// A statement that can be built with the names `bound` in scope.
pub open spec fn stmt_ok(s: StmtV, bound: Seq<Seq<char>>) -> bool
    decreases s,
{
    match s {
        StmtV::Prior { dist, .. } => dist_ok(dist, bound),
        StmtV::Let { value, .. } => val_ok(value, bound),
        StmtV::Observe { dist, value, .. } => dist_ok(dist, bound) && val_ok(value, bound),
        StmtV::If { cond, then_body, else_body, .. } => val_ok(cond, bound) && stmts_ok(then_body, bound)
            && stmts_ok(else_body, low_stmts(then_body, bound).bound),
    }
}

/// Statements that can be built in order, each with the names bound before it.
pub open spec fn stmts_ok(ss: Seq<StmtV>, bound: Seq<Seq<char>>) -> bool
    decreases ss,
{
    if ss.len() == 0 {
        true
    } else {
        stmts_ok(ss.drop_last(), bound) && stmt_ok(ss.last(), low_stmts(ss.drop_last(), bound).bound)
    }
}

// ---------------------------------------------------------------------------
// What the builder produces
// ---------------------------------------------------------------------------

/// The value a name refers to: its latest binding.
pub open spec fn env_get(env: Seq<(Seq<char>, ValueId)>, n: Seq<char>) -> Option<ValueId>
    decreases env.len(),
{
    if env.len() == 0 {
        None
    } else if env.last().0 == n {
        Some(env.last().1)
    } else {
        env_get(env.drop_last(), n)
    }
}

/// The names bound in an environment, in binding order.
pub open spec fn env_names(env: Seq<(Seq<char>, ValueId)>) -> Seq<Seq<char>> {
    env.map_values(|p: (Seq<char>, ValueId)| p.0)
}

/// Ops built for an expression, the value holding its result, and the next
/// fresh value.
pub struct BOut {
    pub ops: Seq<OpV>,
    pub val: ValueId,
    pub next: nat,
}

/// Ops built for a list of expressions, their values, and the next fresh value.
pub struct BArgs {
    pub ops: Seq<OpV>,
    pub vals: Seq<ValueId>,
    pub next: nat,
}

/// Ops built for statements, the environment after them, and the next fresh value.
pub struct BItems {
    pub ops: Seq<OpV>,
    pub env: Seq<(Seq<char>, ValueId)>,
    pub next: nat,
}

/// The scalar op of a binary operator.
pub open spec fn bin_scalar(op: BinOp, a: ValueId, b: ValueId) -> ScalarOp {
    match op {
        BinOp::Add => ScalarOp::Add(a, b),
        BinOp::Sub => ScalarOp::Sub(a, b),
        BinOp::Mul => ScalarOp::Mul(a, b),
        BinOp::Div => ScalarOp::Div(a, b),
    }
}

/// The scalar op of a comparison.
pub open spec fn relation_scalar(op: CmpOp, a: ValueId, b: ValueId) -> ScalarOp {
    match op {
        CmpOp::Gt => ScalarOp::CmpGt(a, b),
        CmpOp::Lt => ScalarOp::CmpLt(a, b),
        CmpOp::Ge => ScalarOp::CmpGe(a, b),
        CmpOp::Le => ScalarOp::CmpLe(a, b),
        CmpOp::Eq => ScalarOp::CmpEq(a, b),
        CmpOp::Ne => ScalarOp::CmpNe(a, b),
    }
}

/// Building an expression as a value: a literal becomes a constant, a name
/// its bound value, an operator a scalar op over its operands' values.
pub open spec fn b_expr(e: ExprV, env: Seq<(Seq<char>, ValueId)>, next: nat) -> BOut
    decreases e,
{
    match e {
        ExprV::Num(l) => BOut {
            ops: seq![OpV::Constant { result: next as ValueId, value: value_text(l) }],
            val: next as ValueId,
            next: next + 1,
        },
        ExprV::Var(n) => BOut {
            ops: seq![],
            val: match env_get(env, n) {
                Some(v) => v,
                None => 0,
            },
            next,
        },
        ExprV::Neg(x) => {
            let a = b_expr(*x, env, next);
            BOut {
                ops: a.ops.push(OpV::Scalar { result: a.next as ValueId, op: ScalarOp::Neg(a.val) }),
                val: a.next as ValueId,
                next: a.next + 1,
            }
        },
        ExprV::Paren(x) => b_expr(*x, env, next),
        ExprV::Bin { op, lhs, rhs } => {
            let a = b_expr(*lhs, env, next);
            let b = b_expr(*rhs, env, a.next);
            BOut {
                ops: (a.ops + b.ops).push(OpV::Scalar { result: b.next as ValueId, op: bin_scalar(op, a.val, b.val) }),
                val: b.next as ValueId,
                next: b.next + 1,
            }
        },
        ExprV::Cmp { op, lhs, rhs } => {
            let a = b_expr(*lhs, env, next);
            let b = b_expr(*rhs, env, a.next);
            BOut {
                ops: (a.ops + b.ops).push(OpV::Scalar { result: b.next as ValueId, op: relation_scalar(op, a.val, b.val) }),
                val: b.next as ValueId,
                next: b.next + 1,
            }
        },
        ExprV::Call { .. } => BOut { ops: seq![], val: 0, next },
    }
}

/// Building a list of expressions in order.
pub open spec fn b_args(s: Seq<ExprV>, env: Seq<(Seq<char>, ValueId)>, next: nat) -> BArgs
    decreases s.len(),
{
    if s.len() == 0 {
        BArgs { ops: seq![], vals: seq![], next }
    } else {
        let a = b_args(s.drop_last(), env, next);
        let b = b_expr(s.last(), env, a.next);
        BArgs { ops: a.ops + b.ops, vals: a.vals.push(b.val), next: b.next }
    }
}

/// Building a distribution: its parameters, then the `augur.dist.*` op.
pub open spec fn b_dist(e: ExprV, env: Seq<(Seq<char>, ValueId)>, next: nat) -> BOut {
    match e {
        ExprV::Call { name, args } => {
            let a = b_args(args, env, next);
            BOut {
                ops: a.ops.push(OpV::Dist { result: a.next as ValueId, family: family_of(name)->0, params: a.vals }),
                val: a.next as ValueId,
                next: a.next + 1,
            }
        },
        _ => BOut { ops: seq![], val: 0, next },
    }
}

/// Building one statement.
pub open spec fn b_stmt(s: StmtV, env: Seq<(Seq<char>, ValueId)>, next: nat) -> BItems
    decreases s,
{
    match s {
        StmtV::Prior { name, dist, .. } => {
            let d = b_dist(dist, env, next);
            BItems {
                ops: d.ops.push(OpV::Sample { result: d.next as ValueId, dist: d.val, name }),
                env: env.push((name, d.next as ValueId)),
                next: d.next + 1,
            }
        },
        StmtV::Let { name, value, .. } => {
            let v = b_expr(value, env, next);
            BItems { ops: v.ops.push(OpV::Let { name, value: v.val }), env: env.push((name, v.val)), next: v.next }
        },
        StmtV::Observe { dist, value, .. } => {
            let d = b_dist(dist, env, next);
            let v = b_expr(value, env, d.next);
            BItems { ops: (d.ops + v.ops).push(OpV::Observe { dist: d.val, value: v.val }), env, next: v.next }
        },
        StmtV::If { cond, then_body, else_body, .. } => {
            let c = b_expr(cond, env, next);
            let t = b_stmts(then_body, env, c.next);
            let e = b_stmts(else_body, t.env, t.next);
            BItems {
                ops: c.ops.push(OpV::Cond { cond: c.val, then_ops: t.ops, else_ops: e.ops }),
                env: e.env,
                next: e.next,
            }
        },
    }
}

/// Building statements in order, threading the environment and the counter.
pub open spec fn b_stmts(ss: Seq<StmtV>, env: Seq<(Seq<char>, ValueId)>, next: nat) -> BItems
    decreases ss,
{
    if ss.len() == 0 {
        BItems { ops: seq![], env, next }
    } else {
        let a = b_stmts(ss.drop_last(), env, next);
        let b = b_stmt(ss.last(), a.env, a.next);
        BItems { ops: a.ops + b.ops, env: b.env, next: b.next }
    }
}

// ---------------------------------------------------------------------------
// Lemmas
// ---------------------------------------------------------------------------

proof fn lemma_env_get(env: Seq<(Seq<char>, ValueId)>, n: Seq<char>)
    requires
        env_names(env).contains(n),
    ensures
        env_get(env, n) is Some,
    decreases env.len(),
{
    if env.last().0 != n {
        let k = choose|k: int| 0 <= k < env_names(env).len() && env_names(env)[k] == n;
        assert(k < env.len() - 1);
        assert(env_names(env.drop_last())[k] == n);
        lemma_env_get(env.drop_last(), n);
    }
}

proof fn lemma_b_expr_mono(e: ExprV, env: Seq<(Seq<char>, ValueId)>, next: nat)
    ensures
        b_expr(e, env, next).next >= next,
    decreases e,
{
    match e {
        ExprV::Neg(x) => lemma_b_expr_mono(*x, env, next),
        ExprV::Paren(x) => lemma_b_expr_mono(*x, env, next),
        ExprV::Bin { lhs, rhs, .. } => {
            lemma_b_expr_mono(*lhs, env, next);
            lemma_b_expr_mono(*rhs, env, b_expr(*lhs, env, next).next);
        },
        ExprV::Cmp { lhs, rhs, .. } => {
            lemma_b_expr_mono(*lhs, env, next);
            lemma_b_expr_mono(*rhs, env, b_expr(*lhs, env, next).next);
        },
        _ => {},
    }
}

proof fn lemma_b_args_mono(s: Seq<ExprV>, env: Seq<(Seq<char>, ValueId)>, next: nat)
    ensures
        b_args(s, env, next).next >= next,
        b_args(s, env, next).vals.len() == s.len(),
    decreases s.len(),
{
    if s.len() > 0 {
        lemma_b_args_mono(s.drop_last(), env, next);
        lemma_b_expr_mono(s.last(), env, b_args(s.drop_last(), env, next).next);
    }
}

proof fn lemma_b_args_prefix(s: Seq<ExprV>, k: int, env: Seq<(Seq<char>, ValueId)>, next: nat)
    requires
        0 <= k <= s.len(),
    ensures
        b_args(s.take(k), env, next).next <= b_args(s, env, next).next,
    decreases s.len(),
{
    if k < s.len() {
        assert(s.drop_last().take(k) =~= s.take(k));
        lemma_b_args_prefix(s.drop_last(), k, env, next);
        lemma_b_expr_mono(s.last(), env, b_args(s.drop_last(), env, next).next);
    } else {
        assert(s.take(k) =~= s);
    }
}

proof fn lemma_b_stmt_mono(s: StmtV, env: Seq<(Seq<char>, ValueId)>, next: nat)
    ensures
        b_stmt(s, env, next).next >= next,
    decreases s, 1nat,
{
    match s {
        StmtV::Prior { dist, .. } => lemma_b_dist_mono(dist, env, next),
        StmtV::Let { value, .. } => lemma_b_expr_mono(value, env, next),
        StmtV::Observe { dist, value, .. } => {
            lemma_b_dist_mono(dist, env, next);
            lemma_b_expr_mono(value, env, b_dist(dist, env, next).next);
        },
        StmtV::If { cond, then_body, else_body, .. } => {
            let c = b_expr(cond, env, next);
            let t = b_stmts(then_body, env, c.next);
            lemma_b_expr_mono(cond, env, next);
            lemma_b_stmts_mono(then_body, env, c.next);
            lemma_b_stmts_mono(else_body, t.env, t.next);
        },
    }
}

proof fn lemma_b_dist_mono(e: ExprV, env: Seq<(Seq<char>, ValueId)>, next: nat)
    ensures
        b_dist(e, env, next).next >= next,
{
    if let ExprV::Call { args, .. } = e {
        lemma_b_args_mono(args, env, next);
    }
}

proof fn lemma_b_stmts_mono(ss: Seq<StmtV>, env: Seq<(Seq<char>, ValueId)>, next: nat)
    ensures
        b_stmts(ss, env, next).next >= next,
    decreases ss, 0nat,
{
    if ss.len() > 0 {
        lemma_b_stmts_mono(ss.drop_last(), env, next);
        let a = b_stmts(ss.drop_last(), env, next);
        lemma_b_stmt_mono(ss.last(), a.env, a.next);
    }
}

/// The environment of a build binds exactly the names lowering binds.
proof fn lemma_b_stmt_names(s: StmtV, env: Seq<(Seq<char>, ValueId)>, next: nat)
    ensures
        env_names(b_stmt(s, env, next).env) == crate::lower::low_stmt(s, env_names(env)).bound,
    decreases s, 1nat,
{
    match s {
        StmtV::Prior { name, dist, .. } => {
            let d = b_dist(dist, env, next);
            assert(env_names(env.push((name, d.next as ValueId))) =~= env_names(env).push(name));
        },
        StmtV::Let { name, value, .. } => {
            let v = b_expr(value, env, next);
            assert(env_names(env.push((name, v.val))) =~= env_names(env).push(name));
        },
        StmtV::Observe { .. } => {},
        StmtV::If { cond, then_body, else_body, .. } => {
            let c = b_expr(cond, env, next);
            let t = b_stmts(then_body, env, c.next);
            lemma_b_stmts_names(then_body, env, c.next);
            lemma_b_stmts_names(else_body, t.env, t.next);
        },
    }
}

proof fn lemma_b_stmts_names(ss: Seq<StmtV>, env: Seq<(Seq<char>, ValueId)>, next: nat)
    ensures
        env_names(b_stmts(ss, env, next).env) == low_stmts(ss, env_names(env)).bound,
    decreases ss, 0nat,
{
    if ss.len() > 0 {
        lemma_b_stmts_names(ss.drop_last(), env, next);
        let a = b_stmts(ss.drop_last(), env, next);
        lemma_b_stmt_names(ss.last(), a.env, a.next);
    }
}

// ---------------------------------------------------------------------------
// Executable builder
// ---------------------------------------------------------------------------

/// The view of an environment.
pub open spec fn env_v(env: Seq<(String, ValueId)>) -> Seq<(Seq<char>, ValueId)> {
    env.map_values(|p: (String, ValueId)| (p.0@, p.1))
}

fn env_lookup(env: &Vec<(String, ValueId)>, name: &String) -> (r: ValueId)
    requires
        env_names(env_v(env@)).contains(name@),
    ensures
        env_get(env_v(env@), name@) == Some(r),
{
    let ghost ev = env_v(env@);
    proof {
        lemma_env_get(ev, name@);
    }
    let mut i: usize = env.len();
    proof {
        assert(ev.take(i as int) =~= ev);
    }
    while i > 0
        invariant
            i <= env@.len(),
            ev == env_v(env@),
            env_get(ev, name@) == env_get(ev.take(i as int), name@),
            env_get(ev, name@) is Some,
        decreases i,
    {
        proof {
            assert(ev.take(i as int).drop_last() =~= ev.take(i - 1));
            assert(ev.take(i as int).last() == ev[i - 1]);
        }
        if env[i - 1].0 == *name {
            return env[i - 1].1;
        }
        i -= 1;
    }
    proof {
        assert(ev.take(0) =~= Seq::<(Seq<char>, ValueId)>::empty());
    }
    0
}

fn push_op(ops: &mut Vec<Op>, o: Op)
    ensures
        ops_v(final(ops)@) == ops_v(old(ops)@).push(o@),
{
    let ghost before = ops@;
    ops.push(o);
    proof {
        assert(ops@.drop_last() =~= before);
    }
}

fn fresh(next: &mut u32) -> (r: ValueId)
    requires
        *old(next) < u32::MAX,
    ensures
        r == *old(next),
        *final(next) == *old(next) + 1,
{
    let r = *next;
    *next = r + 1;
    r
}

/// Builds `e` as a value, appending its ops.
fn build_expr(e: &Expr, ops: &mut Vec<Op>, next: &mut u32, env: &Vec<(String, ValueId)>) -> (r: ValueId)
    requires
        val_ok(e@, env_names(env_v(env@))),
        b_expr(e@, env_v(env@), *old(next) as nat).next <= u32::MAX,
    ensures
        ({
            let b = b_expr(e@, env_v(env@), *old(next) as nat);
            &&& ops_v(final(ops)@) == ops_v(old(ops)@) + b.ops
            &&& r == b.val
            &&& *final(next) == b.next
        }),
    decreases e,
{
    let ghost ev = env_v(env@);
    let ghost n0 = *next as nat;
    let ghost o0 = ops_v(ops@);
    match e {
        Expr::Num(l) => {
            let r = fresh(next);
            push_op(ops, Op::Constant { result: r, value: literal_value_text(l) });
            proof {
                assert(ops_v(ops@) =~= o0 + b_expr(e@, ev, n0).ops);
            }
            r
        },
        Expr::Var(n) => {
            let r = env_lookup(env, n);
            proof {
                assert(ops_v(ops@) =~= o0 + b_expr(e@, ev, n0).ops);
            }
            r
        },
        Expr::Neg(x) => {
            proof {
                lemma_b_expr_mono(x@, ev, n0);
            }
            let v = build_expr(x, ops, next, env);
            let r = fresh(next);
            push_op(ops, Op::Scalar { result: r, op: ScalarOp::Neg(v) });
            proof {
                assert(ops_v(ops@) =~= o0 + b_expr(e@, ev, n0).ops);
            }
            r
        },
        Expr::Paren(x) => build_expr(x, ops, next, env),
        Expr::Bin { op, lhs, rhs } => {
            proof {
                lemma_b_expr_mono(lhs@, ev, n0);
                lemma_b_expr_mono(rhs@, ev, b_expr(lhs@, ev, n0).next);
            }
            let a = build_expr(lhs, ops, next, env);
            let b = build_expr(rhs, ops, next, env);
            let r = fresh(next);
            let sop = match op {
                BinOp::Add => ScalarOp::Add(a, b),
                BinOp::Sub => ScalarOp::Sub(a, b),
                BinOp::Mul => ScalarOp::Mul(a, b),
                BinOp::Div => ScalarOp::Div(a, b),
            };
            push_op(ops, Op::Scalar { result: r, op: sop });
            proof {
                assert(ops_v(ops@) =~= o0 + b_expr(e@, ev, n0).ops);
            }
            r
        },
        Expr::Cmp { op, lhs, rhs } => {
            proof {
                lemma_b_expr_mono(lhs@, ev, n0);
                lemma_b_expr_mono(rhs@, ev, b_expr(lhs@, ev, n0).next);
            }
            let a = build_expr(lhs, ops, next, env);
            let b = build_expr(rhs, ops, next, env);
            let r = fresh(next);
            let sop = match op {
                CmpOp::Gt => ScalarOp::CmpGt(a, b),
                CmpOp::Lt => ScalarOp::CmpLt(a, b),
                CmpOp::Ge => ScalarOp::CmpGe(a, b),
                CmpOp::Le => ScalarOp::CmpLe(a, b),
                CmpOp::Eq => ScalarOp::CmpEq(a, b),
                CmpOp::Ne => ScalarOp::CmpNe(a, b),
            };
            push_op(ops, Op::Scalar { result: r, op: sop });
            proof {
                assert(ops_v(ops@) =~= o0 + b_expr(e@, ev, n0).ops);
            }
            r
        },
        Expr::Call { .. } => 0,
    }
}

/// Builds a distribution expression, appending its ops.
fn build_dist(e: &Expr, ops: &mut Vec<Op>, next: &mut u32, env: &Vec<(String, ValueId)>) -> (r: ValueId)
    requires
        dist_ok(e@, env_names(env_v(env@))),
        b_dist(e@, env_v(env@), *old(next) as nat).next <= u32::MAX,
    ensures
        ({
            let b = b_dist(e@, env_v(env@), *old(next) as nat);
            &&& ops_v(final(ops)@) == ops_v(old(ops)@) + b.ops
            &&& r == b.val
            &&& *final(next) == b.next
        }),
{
    let ghost ev = env_v(env@);
    let ghost n0 = *next as nat;
    let ghost o0 = ops_v(ops@);
    match e {
        Expr::Call { name, args } => {
            let family = match DistFamily::from_name(name.as_str()) {
                Some(f) => f,
                None => DistFamily::Normal,
            };
            let ghost av = exprs_v(args@);
            proof {
                lemma_exprs_v(args@);
                lemma_b_args_mono(av, ev, n0);
            }
            let mut params: Vec<ValueId> = Vec::new();
            let mut i: usize = 0;
            while i < args.len()
                invariant
                    i <= args@.len(),
                    av == exprs_v(args@),
                    av.len() == args@.len(),
                    forall|k: int| 0 <= k < args@.len() ==> #[trigger] av[k] == args@[k]@,
                    forall|k: int| 0 <= k < av.len() ==> val_ok(#[trigger] av[k], env_names(ev)),
                    ev == env_v(env@),
                    b_args(av, ev, n0).next < u32::MAX,
                    ({
                        let b = b_args(av.take(i as int), ev, n0);
                        &&& ops_v(ops@) == o0 + b.ops
                        &&& params@ == b.vals
                        &&& *next == b.next
                    }),
                decreases args.len() - i,
            {
                proof {
                    assert(av.take(i + 1).drop_last() =~= av.take(i as int));
                    assert(av.take(i + 1).last() == av[i as int]);
                    lemma_b_args_prefix(av, i + 1, ev, n0);
                }
                let v = build_expr(&args[i], ops, next, env);
                params.push(v);
                proof {
                    assert(ops_v(ops@) =~= o0 + b_args(av.take(i + 1), ev, n0).ops);
                }
                i += 1;
            }
            proof {
                assert(av.take(args@.len() as int) =~= av);
            }
            let r = fresh(next);
            push_op(ops, Op::Dist { result: r, dist: DistInstance { family, params } });
            proof {
                assert(ops_v(ops@) =~= o0 + b_dist(e@, ev, n0).ops);
            }
            r
        },
        _ => 0,
    }
}

/// Builds a statement, appending its ops and extending the environment.
fn build_item(
    item: &ModelItem,
    ops: &mut Vec<Op>,
    next: &mut u32,
    env: &mut Vec<(String, ValueId)>,
)
    requires
        stmt_ok(item@, env_names(env_v(old(env)@))),
        b_stmt(item@, env_v(old(env)@), *old(next) as nat).next <= u32::MAX,
    ensures
        ({
            let b = b_stmt(item@, env_v(old(env)@), *old(next) as nat);
            &&& ops_v(final(ops)@) == ops_v(old(ops)@) + b.ops
            &&& env_v(final(env)@) == b.env
            &&& *final(next) == b.next
        }),
    decreases item, 1nat,
{
    let ghost ev = env_v(env@);
    let ghost n0 = *next as nat;
    let ghost o0 = ops_v(ops@);
    match item {
        ModelItem::Prior { name, dist, .. } => {
            let d = build_dist(dist, ops, next, env);
            let r = fresh(next);
            push_op(ops, Op::Sample { result: r, dist: d, name: name.clone() });
            env.push((name.clone(), r));
            proof {
                assert(ops_v(ops@) =~= o0 + b_stmt(item@, ev, n0).ops);
                assert(env_v(env@) =~= b_stmt(item@, ev, n0).env);
            }
        },
        ModelItem::Let { name, value, .. } => {
            let v = build_expr(value, ops, next, env);
            push_op(ops, Op::Let { name: name.clone(), value: v });
            env.push((name.clone(), v));
            proof {
                assert(ops_v(ops@) =~= o0 + b_stmt(item@, ev, n0).ops);
                assert(env_v(env@) =~= b_stmt(item@, ev, n0).env);
            }
        },
        ModelItem::Observe { dist, value, .. } => {
            proof {
                lemma_b_expr_mono(value@, ev, b_dist(dist@, ev, n0).next);
            }
            let d = build_dist(dist, ops, next, env);
            let v = build_expr(value, ops, next, env);
            push_op(ops, Op::Observe { dist: d, value: v });
            proof {
                assert(ops_v(ops@) =~= o0 + b_stmt(item@, ev, n0).ops);
            }
        },
        ModelItem::If { cond, then_items, else_items, .. } => {
            let ghost c = b_expr(cond@, ev, n0);
            let ghost t = b_stmts(items_v(then_items@), ev, c.next);
            proof {
                lemma_b_stmts_mono(items_v(else_items@), t.env, t.next);
                lemma_b_stmts_mono(items_v(then_items@), ev, c.next);
                lemma_b_stmts_names(items_v(then_items@), ev, c.next);
                assert(decreases_to!(*item => *then_items));
                assert(decreases_to!(*item => *else_items));
            }
            let cv = build_expr(cond, ops, next, env);
            let then_ops = build_items(then_items, next, env);
            let else_ops = build_items(else_items, next, env);
            push_op(ops, Op::Cond { cond: cv, then_ops, else_ops });
            proof {
                assert(ops_v(ops@) =~= o0 + b_stmt(item@, ev, n0).ops);
            }
        },
    }
}

/// Builds a region of statements in a fresh ops buffer, sharing the counter
/// and the environment with the enclosing scope.
fn build_items(items: &Vec<ModelItem>, next: &mut u32, env: &mut Vec<(String, ValueId)>) -> (r: Vec<Op>)
    requires
        stmts_ok(items_v(items@), env_names(env_v(old(env)@))),
        b_stmts(items_v(items@), env_v(old(env)@), *old(next) as nat).next <= u32::MAX,
    ensures
        ({
            let b = b_stmts(items_v(items@), env_v(old(env)@), *old(next) as nat);
            &&& ops_v(r@) == b.ops
            &&& env_v(final(env)@) == b.env
            &&& *final(next) == b.next
        }),
    decreases items, 0nat,
{
    let ghost sv = items_v(items@);
    let ghost e0 = env_v(env@);
    let ghost n0 = *next as nat;
    proof {
        crate::lower::lemma_items_v(items@);
        assert(decreases_to!(*items => items@));
        assert forall|k: int| 0 <= k < items@.len() implies decreases_to!(*items => #[trigger] items@[k]) by {
            assert(decreases_to!(items@ => items@[k]));
        }
    }
    let mut ops: Vec<Op> = Vec::new();
    let mut i: usize = 0;
    while i < items.len()
        invariant
            forall|k: int| 0 <= k < items@.len() ==> decreases_to!(*items => #[trigger] items@[k]),
            i <= items@.len(),
            sv == items_v(items@),
            sv.len() == items@.len(),
            forall|k: int| 0 <= k < items@.len() ==> #[trigger] sv[k] == items@[k]@,
            stmts_ok(sv, env_names(e0)),
            b_stmts(sv, e0, n0).next <= u32::MAX,
            ({
                let b = b_stmts(sv.take(i as int), e0, n0);
                &&& ops_v(ops@) == b.ops
                &&& env_v(env@) == b.env
                &&& *next == b.next
            }),
        decreases items.len() - i,
    {
        proof {
            assert(sv.take(i + 1).drop_last() =~= sv.take(i as int));
            assert(sv.take(i + 1).last() == sv[i as int]);
            lemma_stmts_ok_prefix(sv, i + 1, env_names(e0));
            lemma_b_stmts_prefix(sv, i + 1, e0, n0);
            lemma_b_stmts_names(sv.take(i as int), e0, n0);
        }
        build_item(&items[i], &mut ops, next, env);
        i += 1;
    }
    proof {
        assert(sv.take(items@.len() as int) =~= sv);
    }
    ops
}

proof fn lemma_stmts_ok_prefix(ss: Seq<StmtV>, k: int, bound: Seq<Seq<char>>)
    requires
        0 <= k <= ss.len(),
        stmts_ok(ss, bound),
    ensures
        stmts_ok(ss.take(k), bound),
    decreases ss.len(),
{
    if k < ss.len() {
        assert(ss.drop_last().take(k) =~= ss.take(k));
        lemma_stmts_ok_prefix(ss.drop_last(), k, bound);
    } else {
        assert(ss.take(k) =~= ss);
    }
}

proof fn lemma_b_stmts_prefix(ss: Seq<StmtV>, k: int, env: Seq<(Seq<char>, ValueId)>, next: nat)
    requires
        0 <= k <= ss.len(),
    ensures
        b_stmts(ss.take(k), env, next).next <= b_stmts(ss, env, next).next,
    decreases ss.len(),
{
    if k < ss.len() {
        assert(ss.drop_last().take(k) =~= ss.take(k));
        lemma_b_stmts_prefix(ss.drop_last(), k, env, next);
        let a = b_stmts(ss.drop_last(), env, next);
        lemma_b_stmt_mono(ss.last(), a.env, a.next);
    } else {
        assert(ss.take(k) =~= ss);
    }
}

/// Builds the probabilistic dialect [`Graph`] of a type-checked [`Model`]:
/// its ops are those of [`b_stmts`] from an empty environment, its prior
/// order is the model's, and `next_value` is the number of values created.
pub fn build_graph(model: &Model) -> (g: Graph)
    requires
        stmts_ok(items_v(model.items@), seq![]),
        b_stmts(items_v(model.items@), seq![], 0).next <= u32::MAX,
    ensures
        ops_v(g.ops@) == b_stmts(items_v(model.items@), seq![], 0).ops,
        names_v(g.prior_order@) == names_v(model.prior_order@),
        g.next_value == b_stmts(items_v(model.items@), seq![], 0).next,
{
    let mut next: u32 = 0;
    let mut env: Vec<(String, ValueId)> = Vec::new();
    proof {
        assert(env_v(env@) =~= Seq::<(Seq<char>, ValueId)>::empty());
        assert(env_names(env_v(env@)) =~= Seq::<Seq<char>>::empty());
    }
    let ops = build_items(&model.items, &mut next, &mut env);
    let mut prior_order: Vec<String> = Vec::new();
    let mut i: usize = 0;
    while i < model.prior_order.len()
        invariant
            i <= model.prior_order@.len(),
            prior_order@ == model.prior_order@.take(i as int),
        decreases model.prior_order.len() - i,
    {
        prior_order.push(model.prior_order[i].clone());
        proof {
            assert(prior_order@ =~= model.prior_order@.take(i + 1));
        }
        i += 1;
    }
    proof {
        assert(model.prior_order@.take(model.prior_order@.len() as int) =~= model.prior_order@);
    }
    Graph { ops, prior_order, next_value: next }
}

// ---------------------------------------------------------------------------
// What the checker accepts, the builder builds
// ---------------------------------------------------------------------------

/// No diagnostic of the sequence is an error.
pub open spec fn no_errors(d: Seq<LDiagV>) -> bool {
    forall|i: int| 0 <= i < d.len() ==> (#[trigger] d[i]).severity != Severity::Error
}

proof fn lemma_no_errors_split(a: Seq<LDiagV>, b: Seq<LDiagV>)
    requires
        no_errors(a + b),
    ensures
        no_errors(a),
        no_errors(b),
{
    assert forall|i: int| 0 <= i < a.len() implies (#[trigger] a[i]).severity != Severity::Error by {
        assert((a + b)[i] == a[i]);
    }
    assert forall|i: int| 0 <= i < b.len() implies (#[trigger] b[i]).severity != Severity::Error by {
        assert((a + b)[a.len() + i] == b[i]);
    }
}

proof fn lemma_value_accepted(e: ExprV, bound: Seq<Seq<char>>)
    requires
        no_errors(check_value(e, bound)),
    ensures
        val_ok(e, bound),
    decreases e,
{
    match e {
        ExprV::Var(n) => {
            if !bound.contains(n) {
                assert(check_value(e, bound)[0].severity == Severity::Error);
            }
        },
        ExprV::Neg(x) => lemma_value_accepted(*x, bound),
        ExprV::Paren(x) => lemma_value_accepted(*x, bound),
        ExprV::Bin { lhs, rhs, .. } => {
            lemma_no_errors_split(check_value(*lhs, bound), check_value(*rhs, bound));
            lemma_value_accepted(*lhs, bound);
            lemma_value_accepted(*rhs, bound);
        },
        ExprV::Cmp { lhs, rhs, .. } => {
            lemma_no_errors_split(check_value(*lhs, bound), check_value(*rhs, bound));
            lemma_value_accepted(*lhs, bound);
            lemma_value_accepted(*rhs, bound);
        },
        ExprV::Call { .. } => {
            assert(check_value(e, bound)[0].severity == Severity::Error);
        },
        _ => {},
    }
}

proof fn lemma_values_accepted(s: Seq<ExprV>, bound: Seq<Seq<char>>)
    requires
        no_errors(check_values(s, bound)),
    ensures
        forall|i: int| 0 <= i < s.len() ==> val_ok(#[trigger] s[i], bound),
    decreases s.len(),
{
    if s.len() > 0 {
        lemma_no_errors_split(check_values(s.drop_last(), bound), check_value(s.last(), bound));
        lemma_values_accepted(s.drop_last(), bound);
        lemma_value_accepted(s.last(), bound);
        assert forall|i: int| 0 <= i < s.len() implies val_ok(#[trigger] s[i], bound) by {
            if i < s.len() - 1 {
                assert(s.drop_last()[i] == s[i]);
            }
        }
    }
}

proof fn lemma_dist_accepted(e: ExprV, bound: Seq<Seq<char>>)
    requires
        no_errors(check_dist(e, bound)),
    ensures
        dist_ok(e, bound),
{
    match e {
        ExprV::Call { name, args } => {
            let a = arity_diags(name, args.len());
            let v = check_values(args, bound);
            lemma_no_errors_split(a + v, degenerate_diags(name, args));
            lemma_no_errors_split(a, v);
            if dist_arity(name) is None {
                assert(a[0].severity == Severity::Error);
            }
            lemma_values_accepted(args, bound);
        },
        _ => {
            assert(check_dist(e, bound)[0].severity == Severity::Error);
        },
    }
}

proof fn lemma_stmt_accepted(s: StmtV, bound: Seq<Seq<char>>)
    requires
        no_errors(low_stmt(s, bound).d),
    ensures
        stmt_ok(s, bound),
    decreases s, 1nat,
{
    match s {
        StmtV::Prior { name, dist, span } => {
            lemma_no_errors_split(check_dist(dist, bound), dup_diags(name, bound, span));
            lemma_dist_accepted(dist, bound);
        },
        StmtV::Let { name, value, span } => {
            lemma_no_errors_split(check_value(value, bound), dup_diags(name, bound, span));
            lemma_value_accepted(value, bound);
        },
        StmtV::Observe { dist, value, .. } => {
            lemma_no_errors_split(check_dist(dist, bound), check_value(value, bound));
            lemma_dist_accepted(dist, bound);
            lemma_value_accepted(value, bound);
        },
        StmtV::If { cond, then_body, else_body, .. } => {
            let t = low_stmts(then_body, bound);
            let e = low_stmts(else_body, t.bound);
            lemma_no_errors_split(check_value(cond, bound) + t.d, e.d);
            lemma_no_errors_split(check_value(cond, bound), t.d);
            lemma_value_accepted(cond, bound);
            lemma_stmts_accepted(then_body, bound);
            lemma_stmts_accepted(else_body, t.bound);
        },
    }
}

proof fn lemma_stmts_accepted(ss: Seq<StmtV>, bound: Seq<Seq<char>>)
    requires
        no_errors(low_stmts(ss, bound).d),
    ensures
        stmts_ok(ss, bound),
    decreases ss, 0nat,
{
    if ss.len() > 0 {
        let a = low_stmts(ss.drop_last(), bound);
        let b = low_stmt(ss.last(), a.bound);
        lemma_no_errors_split(a.d, b.d);
        lemma_stmts_accepted(ss.drop_last(), bound);
        lemma_stmt_accepted(ss.last(), a.bound);
    }
}

/// A program whose lowering reports no error can be built: every name it
/// reads is declared before, every distribution is of a known family, and
/// no distribution stands where a value is expected. So the model that
/// lowering returns for it meets what [`build_graph`] asks of its shape.
pub proof fn lemma_accepted_program_builds(program: Seq<StmtV>)
    requires
        no_errors(low_stmts(program, seq![]).d),
    ensures
        stmts_ok(program, seq![]),
{
    lemma_stmts_accepted(program, seq![]);
}

// ---------------------------------------------------------------------------
// How many values a build creates
// ---------------------------------------------------------------------------

/// The values building an expression creates.
pub open spec fn expr_values(e: ExprV) -> nat
    decreases e,
{
    match e {
        ExprV::Num(_) => 1,
        ExprV::Var(_) => 0,
        ExprV::Neg(x) => 1 + expr_values(*x),
        ExprV::Paren(x) => expr_values(*x),
        ExprV::Bin { lhs, rhs, .. } => 1 + expr_values(*lhs) + expr_values(*rhs),
        ExprV::Cmp { lhs, rhs, .. } => 1 + expr_values(*lhs) + expr_values(*rhs),
        ExprV::Call { .. } => 0,
    }
}

/// The values building a list of expressions creates.
pub open spec fn args_values(s: Seq<ExprV>) -> nat
    decreases s.len(),
{
    if s.len() == 0 {
        0
    } else {
        args_values(s.drop_last()) + expr_values(s.last())
    }
}

/// The values building a distribution creates.
pub open spec fn dist_values(e: ExprV) -> nat {
    match e {
        ExprV::Call { args, .. } => args_values(args) + 1,
        _ => 0,
    }
}

/// The values building a statement creates.
pub open spec fn stmt_values(s: StmtV) -> nat
    decreases s,
{
    match s {
        StmtV::Prior { dist, .. } => dist_values(dist) + 1,
        StmtV::Let { value, .. } => expr_values(value),
        StmtV::Observe { dist, value, .. } => dist_values(dist) + expr_values(value),
        StmtV::If { cond, then_body, else_body, .. } => expr_values(cond) + stmts_values(then_body)
            + stmts_values(else_body),
    }
}

/// The values building statements creates.
pub open spec fn stmts_values(ss: Seq<StmtV>) -> nat
    decreases ss,
{
    if ss.len() == 0 {
        0
    } else {
        stmts_values(ss.drop_last()) + stmt_values(ss.last())
    }
}

proof fn lemma_expr_values(e: ExprV, env: Seq<(Seq<char>, ValueId)>, next: nat)
    ensures
        b_expr(e, env, next).next == next + expr_values(e),
    decreases e,
{
    match e {
        ExprV::Neg(x) => lemma_expr_values(*x, env, next),
        ExprV::Paren(x) => lemma_expr_values(*x, env, next),
        ExprV::Bin { lhs, rhs, .. } => {
            lemma_expr_values(*lhs, env, next);
            lemma_expr_values(*rhs, env, b_expr(*lhs, env, next).next);
        },
        ExprV::Cmp { lhs, rhs, .. } => {
            lemma_expr_values(*lhs, env, next);
            lemma_expr_values(*rhs, env, b_expr(*lhs, env, next).next);
        },
        _ => {},
    }
}

proof fn lemma_args_values(s: Seq<ExprV>, env: Seq<(Seq<char>, ValueId)>, next: nat)
    ensures
        b_args(s, env, next).next == next + args_values(s),
    decreases s.len(),
{
    if s.len() > 0 {
        lemma_args_values(s.drop_last(), env, next);
        lemma_expr_values(s.last(), env, b_args(s.drop_last(), env, next).next);
    }
}

proof fn lemma_stmt_values(s: StmtV, env: Seq<(Seq<char>, ValueId)>, next: nat)
    ensures
        b_stmt(s, env, next).next == next + stmt_values(s),
    decreases s, 1nat,
{
    match s {
        StmtV::Prior { dist, .. } => {
            if let ExprV::Call { args, .. } = dist {
                lemma_args_values(args, env, next);
            }
        },
        StmtV::Let { value, .. } => lemma_expr_values(value, env, next),
        StmtV::Observe { dist, value, .. } => {
            if let ExprV::Call { args, .. } = dist {
                lemma_args_values(args, env, next);
            }
            lemma_expr_values(value, env, b_dist(dist, env, next).next);
        },
        StmtV::If { cond, then_body, else_body, .. } => {
            let c = b_expr(cond, env, next);
            let t = b_stmts(then_body, env, c.next);
            lemma_expr_values(cond, env, next);
            lemma_stmts_values(then_body, env, c.next);
            lemma_stmts_values(else_body, t.env, t.next);
        },
    }
}

proof fn lemma_stmts_values(ss: Seq<StmtV>, env: Seq<(Seq<char>, ValueId)>, next: nat)
    ensures
        b_stmts(ss, env, next).next == next + stmts_values(ss),
    decreases ss, 0nat,
{
    if ss.len() > 0 {
        lemma_stmts_values(ss.drop_last(), env, next);
        let a = b_stmts(ss.drop_last(), env, next);
        lemma_stmt_values(ss.last(), a.env, a.next);
    }
}

/// One more than the largest value id.
pub open spec fn id_space() -> nat {
    u32::MAX as nat + 1
}

/// `x` capped at [`id_space`].
pub open spec fn capped(x: nat) -> nat {
    if x > id_space() { id_space() } else { x }
}

fn add_capped(a: u64, b: u64) -> (r: u64)
    requires
        a <= id_space(),
        b <= id_space(),
    ensures
        r == capped((a + b) as nat),
{
    if a + b > 4294967296u64 { 4294967296u64 } else { a + b }
}

fn count_expr(e: &Expr) -> (r: u64)
    ensures
        r == capped(expr_values(e@)),
    decreases e,
{
    match e {
        Expr::Num(_) => 1,
        Expr::Var(_) => 0,
        Expr::Neg(x) => add_capped(1, count_expr(x)),
        Expr::Paren(x) => count_expr(x),
        Expr::Bin { lhs, rhs, .. } => {
            let a = count_expr(lhs);
            let b = count_expr(rhs);
            add_capped(1, add_capped(a, b))
        },
        Expr::Cmp { lhs, rhs, .. } => {
            let a = count_expr(lhs);
            let b = count_expr(rhs);
            add_capped(1, add_capped(a, b))
        },
        Expr::Call { .. } => 0,
    }
}

fn count_dist(e: &Expr) -> (r: u64)
    ensures
        r == capped(dist_values(e@)),
{
    match e {
        Expr::Call { args, .. } => {
            let ghost av = exprs_v(args@);
            proof {
                lemma_exprs_v(args@);
            }
            let mut n: u64 = 0;
            let mut i: usize = 0;
            while i < args.len()
                invariant
                    i <= args@.len(),
                    av == exprs_v(args@),
                    av.len() == args@.len(),
                    forall|k: int| 0 <= k < args@.len() ==> #[trigger] av[k] == args@[k]@,
                    n == capped(args_values(av.take(i as int))),
                decreases args.len() - i,
            {
                proof {
                    assert(av.take(i + 1).drop_last() =~= av.take(i as int));
                    assert(av.take(i + 1).last() == av[i as int]);
                }
                n = add_capped(n, count_expr(&args[i]));
                i += 1;
            }
            proof {
                assert(av.take(args@.len() as int) =~= av);
            }
            add_capped(n, 1)
        },
        _ => 0,
    }
}

fn count_item(item: &ModelItem) -> (r: u64)
    ensures
        r == capped(stmt_values(item@)),
    decreases item, 1nat,
{
    match item {
        ModelItem::Prior { dist, .. } => add_capped(count_dist(dist), 1),
        ModelItem::Let { value, .. } => count_expr(value),
        ModelItem::Observe { dist, value, .. } => add_capped(count_dist(dist), count_expr(value)),
        ModelItem::If { cond, then_items, else_items, .. } => {
            proof {
                assert(decreases_to!(*item => *then_items));
                assert(decreases_to!(*item => *else_items));
            }
            let c = count_expr(cond);
            let t = count_items(then_items);
            let e = count_items(else_items);
            add_capped(add_capped(c, t), e)
        },
    }
}

fn count_items(items: &Vec<ModelItem>) -> (r: u64)
    ensures
        r == capped(stmts_values(items_v(items@))),
    decreases items, 0nat,
{
    let ghost sv = items_v(items@);
    proof {
        crate::lower::lemma_items_v(items@);
        assert(decreases_to!(*items => items@));
        assert forall|k: int| 0 <= k < items@.len() implies decreases_to!(*items => #[trigger] items@[k]) by {
            assert(decreases_to!(items@ => items@[k]));
        }
    }
    let mut n: u64 = 0;
    let mut i: usize = 0;
    while i < items.len()
        invariant
            forall|k: int| 0 <= k < items@.len() ==> decreases_to!(*items => #[trigger] items@[k]),
            i <= items@.len(),
            sv == items_v(items@),
            sv.len() == items@.len(),
            forall|k: int| 0 <= k < items@.len() ==> #[trigger] sv[k] == items@[k]@,
            n == capped(stmts_values(sv.take(i as int))),
        decreases items.len() - i,
    {
        proof {
            assert(sv.take(i + 1).drop_last() =~= sv.take(i as int));
            assert(sv.take(i + 1).last() == sv[i as int]);
        }
        n = add_capped(n, count_item(&items[i]));
        i += 1;
    }
    proof {
        assert(sv.take(items@.len() as int) =~= sv);
    }
    n
}

/// Whether every value a build of the model creates gets a distinct `u32`
/// id, that is whether [`build_graph`] can number them.
pub fn ids_suffice(model: &Model) -> (b: bool)
    ensures
        b == (b_stmts(items_v(model.items@), seq![], 0).next <= u32::MAX),
{
    proof {
        lemma_stmts_values(items_v(model.items@), seq![], 0);
    }
    count_items(&model.items) <= 4294967295u64
}

// ---------------------------------------------------------------------------
// Checking that a model can be built
// ---------------------------------------------------------------------------

fn val_ok_exec(e: &Expr, bound: &Vec<String>) -> (b: bool)
    ensures
        b == val_ok(e@, names_v(bound@)),
    decreases e,
{
    match e {
        Expr::Num(_) => true,
        Expr::Var(n) => crate::util::contains_name(bound, n),
        Expr::Neg(x) => val_ok_exec(x, bound),
        Expr::Paren(x) => val_ok_exec(x, bound),
        Expr::Bin { lhs, rhs, .. } => val_ok_exec(lhs, bound) && val_ok_exec(rhs, bound),
        Expr::Cmp { lhs, rhs, .. } => val_ok_exec(lhs, bound) && val_ok_exec(rhs, bound),
        Expr::Call { .. } => false,
    }
}

fn dist_ok_exec(e: &Expr, bound: &Vec<String>) -> (b: bool)
    ensures
        b == dist_ok(e@, names_v(bound@)),
{
    match e {
        Expr::Call { name, args } => {
            if DistFamily::from_name(name.as_str()).is_none() {
                return false;
            }
            let ghost av = exprs_v(args@);
            proof {
                lemma_exprs_v(args@);
            }
            let mut i: usize = 0;
            while i < args.len()
                invariant
                    i <= args@.len(),
                    av == exprs_v(args@),
                    av.len() == args@.len(),
                    forall|k: int| 0 <= k < args@.len() ==> #[trigger] av[k] == args@[k]@,
                    forall|k: int| 0 <= k < i ==> val_ok(#[trigger] av[k], names_v(bound@)),
                    e@ == (ExprV::Call { name: name@, args: av }),
                decreases args.len() - i,
            {
                if !val_ok_exec(&args[i], bound) {
                    proof {
                        assert(av[i as int] == args@[i as int]@);
                        assert(!val_ok(av[i as int], names_v(bound@)));
                        let ee = e@;
                        match ee {
                            ExprV::Call { args: a2, .. } => {
                                assert(a2 == av);
                                assert(!val_ok(a2[i as int], names_v(bound@)));
                            },
                            _ => {},
                        }
                    }
                    return false;
                }
                i += 1;
            }
            true
        },
        _ => false,
    }
}

fn bind(bound: &mut Vec<String>, name: &String)
    ensures
        names_v(final(bound)@) == names_v(old(bound)@).push(name@),
{
    bound.push(name.clone());
    assert(names_v(bound@) =~= names_v(old(bound)@).push(name@));
}

fn stmt_ok_exec(item: &ModelItem, bound: &mut Vec<String>) -> (b: bool)
    ensures
        b == stmt_ok(item@, names_v(old(bound)@)),
        names_v(final(bound)@) == low_stmt(item@, names_v(old(bound)@)).bound,
    decreases item, 1nat,
{
    match item {
        ModelItem::Prior { name, dist, .. } => {
            let b = dist_ok_exec(dist, bound);
            bind(bound, name);
            b
        },
        ModelItem::Let { name, value, .. } => {
            let b = val_ok_exec(value, bound);
            bind(bound, name);
            b
        },
        ModelItem::Observe { dist, value, .. } => dist_ok_exec(dist, bound) && val_ok_exec(value, bound),
        ModelItem::If { cond, then_items, else_items, .. } => {
            proof {
                assert(decreases_to!(*item => *then_items));
                assert(decreases_to!(*item => *else_items));
            }
            let c = val_ok_exec(cond, bound);
            let t = stmts_ok_exec(then_items, bound);
            let e = stmts_ok_exec(else_items, bound);
            c && t && e
        },
    }
}

fn stmts_ok_exec(items: &Vec<ModelItem>, bound: &mut Vec<String>) -> (b: bool)
    ensures
        b == stmts_ok(items_v(items@), names_v(old(bound)@)),
        names_v(final(bound)@) == low_stmts(items_v(items@), names_v(old(bound)@)).bound,
    decreases items, 0nat,
{
    let ghost sv = items_v(items@);
    let ghost b0 = names_v(bound@);
    proof {
        crate::lower::lemma_items_v(items@);
        assert(decreases_to!(*items => items@));
        assert forall|k: int| 0 <= k < items@.len() implies decreases_to!(*items => #[trigger] items@[k]) by {
            assert(decreases_to!(items@ => items@[k]));
        }
    }
    let mut ok = true;
    let mut i: usize = 0;
    while i < items.len()
        invariant
            forall|k: int| 0 <= k < items@.len() ==> decreases_to!(*items => #[trigger] items@[k]),
            i <= items@.len(),
            sv == items_v(items@),
            sv.len() == items@.len(),
            forall|k: int| 0 <= k < items@.len() ==> #[trigger] sv[k] == items@[k]@,
            ok == stmts_ok(sv.take(i as int), b0),
            names_v(bound@) == low_stmts(sv.take(i as int), b0).bound,
        decreases items.len() - i,
    {
        proof {
            assert(sv.take(i + 1).drop_last() =~= sv.take(i as int));
            assert(sv.take(i + 1).last() == sv[i as int]);
        }
        let b = stmt_ok_exec(&items[i], bound);
        ok = ok && b;
        i += 1;
    }
    proof {
        assert(sv.take(items@.len() as int) =~= sv);
    }
    ok
}

/// Whether the model meets what [`build_graph`] asks of its shape: names
/// declared before use, known families, no distribution used as a value.
pub fn model_buildable(model: &Model) -> (b: bool)
    ensures
        b == stmts_ok(items_v(model.items@), seq![]),
{
    let mut bound: Vec<String> = Vec::new();
    proof {
        assert(names_v(bound@) =~= Seq::<Seq<char>>::empty());
    }
    stmts_ok_exec(&model.items, &mut bound)
}


/// An arithmetic expression is built as its left operand's ops, then its
/// right operand's, then one scalar op of the same operator that reads the
/// left operand's value first and the right operand's second, and defines
/// the expression's value. Comparisons keep their operand order the same
/// way.
pub proof fn lemma_operands_in_source_order(e: ExprV, env: Seq<(Seq<char>, ValueId)>, next: nat)
    requires
        e is Bin || e is Cmp,
    ensures
        ({
            let (lhs, rhs) = match e {
                ExprV::Bin { lhs, rhs, .. } => (*lhs, *rhs),
                ExprV::Cmp { lhs, rhs, .. } => (*lhs, *rhs),
                _ => (e, e),
            };
            let a = b_expr(lhs, env, next);
            let b = b_expr(rhs, env, a.next);
            let o = b_expr(e, env, next);
            &&& o.ops.len() == a.ops.len() + b.ops.len() + 1
            &&& o.ops.subrange(0, a.ops.len() as int) == a.ops
            &&& o.ops.subrange(a.ops.len() as int, (a.ops.len() + b.ops.len()) as int) == b.ops
            &&& o.ops.last() matches OpV::Scalar { result, op }
            &&& result == o.val
            &&& scalar_operands(op) == seq![a.val, b.val]
            &&& (e matches ExprV::Bin { op: BinOp::Add, .. } ==> op is Add)
            &&& (e matches ExprV::Bin { op: BinOp::Sub, .. } ==> op is Sub)
            &&& (e matches ExprV::Bin { op: BinOp::Mul, .. } ==> op is Mul)
            &&& (e matches ExprV::Bin { op: BinOp::Div, .. } ==> op is Div)
            &&& (e matches ExprV::Cmp { op: CmpOp::Gt, .. } ==> op is CmpGt)
            &&& (e matches ExprV::Cmp { op: CmpOp::Lt, .. } ==> op is CmpLt)
            &&& (e matches ExprV::Cmp { op: CmpOp::Ge, .. } ==> op is CmpGe)
            &&& (e matches ExprV::Cmp { op: CmpOp::Le, .. } ==> op is CmpLe)
            &&& (e matches ExprV::Cmp { op: CmpOp::Eq, .. } ==> op is CmpEq)
            &&& (e matches ExprV::Cmp { op: CmpOp::Ne, .. } ==> op is CmpNe)
        }),
{
    match e {
        ExprV::Bin { op, lhs, rhs } => {
            let a = b_expr(*lhs, env, next);
            let b = b_expr(*rhs, env, a.next);
            let o = b_expr(e, env, next);
            assert(o.ops.subrange(0, a.ops.len() as int) =~= a.ops);
            assert(o.ops.subrange(a.ops.len() as int, (a.ops.len() + b.ops.len()) as int) =~= b.ops);
        },
        ExprV::Cmp { op, lhs, rhs } => {
            let a = b_expr(*lhs, env, next);
            let b = b_expr(*rhs, env, a.next);
            let o = b_expr(e, env, next);
            assert(o.ops.subrange(0, a.ops.len() as int) =~= a.ops);
            assert(o.ops.subrange(a.ops.len() as int, (a.ops.len() + b.ops.len()) as int) =~= b.ops);
        },
        _ => {},
    }
}

} // verus!
