//! Source formatter: re-emits a parsed program in canonical layout.
use vstd::prelude::*;
use crate::ast::{BinOp, CmpOp, Expr, ExprV, exprs_v, lemma_exprs_v, Stmt, StmtV, stmts_v, lemma_stmts_v, Program};
use crate::num::{num_text, push_num_text};

verus! {

/// The symbol of an arithmetic operator.
pub open spec fn bin_op_text(op: BinOp) -> Seq<char> {
    match op {
        BinOp::Add => "+"@,
        BinOp::Sub => "-"@,
        BinOp::Mul => "*"@,
        BinOp::Div => "/"@,
    }
}

/// The symbol of a comparison operator.
pub open spec fn comparison_text(op: CmpOp) -> Seq<char> {
    match op {
        CmpOp::Gt => ">"@,
        CmpOp::Lt => "<"@,
        CmpOp::Ge => ">="@,
        CmpOp::Le => "<="@,
        CmpOp::Eq => "=="@,
        CmpOp::Ne => "!="@,
    }
}

/// Canonical text of an expression: operators surrounded by single spaces,
/// call arguments separated by `, `, numbers in canonical form.
pub open spec fn fmt_expr(e: ExprV) -> Seq<char>
    decreases e,
{
    match e {
        ExprV::Num(l) => num_text(l),
        ExprV::Var(n) => n,
        ExprV::Neg(x) => "-"@ + fmt_expr(*x),
        ExprV::Paren(x) => "("@ + fmt_expr(*x) + ")"@,
        ExprV::Call { name, args } => name + "("@ + fmt_args(args) + ")"@,
        ExprV::Bin { op, lhs, rhs } => fmt_expr(*lhs) + " "@ + bin_op_text(op) + " "@ + fmt_expr(*rhs),
        ExprV::Cmp { op, lhs, rhs } => fmt_expr(*lhs) + " "@ + comparison_text(op) + " "@ + fmt_expr(*rhs),
    }
}

/// Call arguments joined by `, `.
pub open spec fn fmt_args(s: Seq<ExprV>) -> Seq<char>
    decreases s,
{
    if s.len() == 0 {
        seq![]
    } else if s.len() == 1 {
        fmt_expr(s[0])
    } else {
        fmt_args(s.drop_last()) + ", "@ + fmt_expr(s.last())
    }
}

/// Canonical text of a statement indented by `pad`; the bodies of an `if`
/// are indented by two more spaces, one statement per line, and an empty
/// `else` body is omitted.
pub open spec fn fmt_stmt(s: StmtV, pad: Seq<char>) -> Seq<char>
    decreases s,
{
    match s {
        StmtV::Prior { name, dist, .. } => pad + "let "@ + name + " ~ "@ + fmt_expr(dist),
        StmtV::Let { name, value, .. } => pad + "let "@ + name + " = "@ + fmt_expr(value),
        StmtV::Observe { dist, value, .. } => pad + "observe "@ + fmt_expr(dist) + " = "@ + fmt_expr(value),
        StmtV::If { cond, then_body, else_body, .. } => {
            let head = pad + "if "@ + fmt_expr(cond) + " {\n"@ + fmt_lines(then_body, pad + "  "@) + pad + "}"@;
            if else_body.len() == 0 {
                head
            } else {
                head + " else {\n"@ + fmt_lines(else_body, pad + "  "@) + pad + "}"@
            }
        },
    }
}

/// Statements, each followed by a newline.
pub open spec fn fmt_lines(s: Seq<StmtV>, pad: Seq<char>) -> Seq<char>
    decreases s,
{
    if s.len() == 0 {
        seq![]
    } else {
        fmt_lines(s.drop_last(), pad) + fmt_stmt(s.last(), pad) + "\n"@
    }
}

/// Top-level statements separated by newlines.
pub open spec fn fmt_program(s: Seq<StmtV>) -> Seq<char>
    decreases s.len(),
{
    if s.len() == 0 {
        seq![]
    } else if s.len() == 1 {
        fmt_stmt(s[0], seq![])
    } else {
        fmt_program(s.drop_last()) + "\n"@ + fmt_stmt(s.last(), seq![])
    }
}

fn push_bin_op(out: &mut String, op: BinOp)
    ensures
        final(out)@ == old(out)@ + bin_op_text(op),
{
    match op {
        BinOp::Add => out.append("+"),
        BinOp::Sub => out.append("-"),
        BinOp::Mul => out.append("*"),
        BinOp::Div => out.append("/"),
    }
}

fn push_comparison(out: &mut String, op: CmpOp)
    ensures
        final(out)@ == old(out)@ + comparison_text(op),
{
    match op {
        CmpOp::Gt => out.append(">"),
        CmpOp::Lt => out.append("<"),
        CmpOp::Ge => out.append(">="),
        CmpOp::Le => out.append("<="),
        CmpOp::Eq => out.append("=="),
        CmpOp::Ne => out.append("!="),
    }
}

/// Appends the canonical text of an expression.
pub fn push_expr(out: &mut String, e: &Expr)
    ensures
        final(out)@ == old(out)@ + fmt_expr(e@),
    decreases e,
{
    match e {
        Expr::Num(l) => push_num_text(out, l),
        Expr::Var(n) => out.append(n.as_str()),
        Expr::Neg(x) => {
            out.append("-");
            push_expr(out, x);
            proof {
                assert(final(out)@ =~= old(out)@ + fmt_expr(e@));
            }
        },
        Expr::Paren(x) => {
            out.append("(");
            push_expr(out, x);
            out.append(")");
            proof {
                assert(final(out)@ =~= old(out)@ + fmt_expr(e@));
            }
        },
        Expr::Call { name, args } => {
            out.append(name.as_str());
            out.append("(");
            let ghost mid = out@;
            let ghost av = exprs_v(args@);
            proof {
                lemma_exprs_v(args@);
            }
            proof {
                assert(decreases_to!(*e => *args));
                assert(decreases_to!(*args => args@));
                assert forall|k: int| 0 <= k < args@.len() implies decreases_to!(*e => #[trigger] args@[k]) by {
                    assert(decreases_to!(args@ => args@[k]));
                }
            }
            let mut i: usize = 0;
            while i < args.len()
                invariant
                    forall|k: int| 0 <= k < args@.len() ==> decreases_to!(*e => #[trigger] args@[k]),
                    i <= args@.len(),
                    av == exprs_v(args@),
                    av.len() == args@.len(),
                    forall|k: int| 0 <= k < args@.len() ==> #[trigger] av[k] == args@[k]@,
                    out@ == mid + fmt_args(av.take(i as int)),
                decreases args.len() - i,
            {
                let ghost before = out@;
                if i > 0 {
                    out.append(", ");
                }
                push_expr(out, &args[i]);
                proof {
                    assert(av.take(i + 1).drop_last() =~= av.take(i as int));
                    assert(av.take(i + 1).last() == av[i as int]);
                    assert(av.take(i + 1)[0] == av[0]);
                    if i == 0 {
                        assert(av.take(0) =~= Seq::<ExprV>::empty());
                    }
                    assert(out@ =~= mid + fmt_args(av.take(i + 1)));
                }
                i += 1;
            }
            out.append(")");
            proof {
                assert(av.take(args@.len() as int) =~= av);
                assert(final(out)@ =~= old(out)@ + fmt_expr(e@));
            }
        },
        Expr::Bin { op, lhs, rhs } => {
            push_expr(out, lhs);
            out.append(" ");
            push_bin_op(out, *op);
            out.append(" ");
            push_expr(out, rhs);
            proof {
                assert(final(out)@ =~= old(out)@ + fmt_expr(e@));
            }
        },
        Expr::Cmp { op, lhs, rhs } => {
            push_expr(out, lhs);
            out.append(" ");
            push_comparison(out, *op);
            out.append(" ");
            push_expr(out, rhs);
            proof {
                assert(final(out)@ =~= old(out)@ + fmt_expr(e@));
            }
        },
    }
}

/// Appends statements, each followed by a newline.
fn push_lines(out: &mut String, body: &Vec<Stmt>, pad: &String)
    ensures
        final(out)@ == old(out)@ + fmt_lines(stmts_v(body@), pad@),
    decreases body, 0nat,
{
    let ghost sv = stmts_v(body@);
    proof {
        lemma_stmts_v(body@);
    }
    let ghost start = out@;
    let mut i: usize = 0;
    while i < body.len()
        invariant
            i <= body@.len(),
            sv == stmts_v(body@),
            sv.len() == body@.len(),
            forall|k: int| 0 <= k < body@.len() ==> #[trigger] sv[k] == body@[k]@,
            out@ == start + fmt_lines(sv.take(i as int), pad@),
        decreases body.len() - i,
    {
        push_stmt(out, &body[i], pad);
        out.append("\n");
        proof {
            assert(sv.take(i + 1).drop_last() =~= sv.take(i as int));
            assert(sv.take(i + 1).last() == sv[i as int]);
            assert(out@ =~= start + fmt_lines(sv.take(i + 1), pad@));
        }
        i += 1;
    }
    proof {
        assert(sv.take(body@.len() as int) =~= sv);
    }
}

/// Appends the canonical text of a statement indented by `pad`.
pub fn push_stmt(out: &mut String, s: &Stmt, pad: &String)
    ensures
        final(out)@ == old(out)@ + fmt_stmt(s@, pad@),
    decreases s, 1nat,
{
    match s {
        Stmt::Prior { name, dist, .. } => {
            out.append(pad.as_str());
            out.append("let ");
            out.append(name.as_str());
            out.append(" ~ ");
            push_expr(out, dist);
        },
        Stmt::Let { name, value, .. } => {
            out.append(pad.as_str());
            out.append("let ");
            out.append(name.as_str());
            out.append(" = ");
            push_expr(out, value);
        },
        Stmt::Observe { dist, value, .. } => {
            out.append(pad.as_str());
            out.append("observe ");
            push_expr(out, dist);
            out.append(" = ");
            push_expr(out, value);
        },
        Stmt::If { cond, then_body, else_body, .. } => {
            let mut inner = pad.clone();
            inner.append("  ");
            out.append(pad.as_str());
            out.append("if ");
            push_expr(out, cond);
            out.append(" {\n");
            push_lines(out, then_body, &inner);
            out.append(pad.as_str());
            out.append("}");
            if else_body.len() > 0 {
                out.append(" else {\n");
                push_lines(out, else_body, &inner);
                out.append(pad.as_str());
                out.append("}");
            }
            proof {
                lemma_stmts_v(else_body@);
            }
        },
    }
    proof {
        assert(final(out)@ =~= old(out)@ + fmt_stmt(s@, pad@));
    }
}

/// Render a parsed program to canonical source text.
pub fn format_program(program: &Program) -> (r: String)
    ensures
        r@ == fmt_program(program@),
{
    let ghost sv = program@;
    proof {
        lemma_stmts_v(program.statements@);
    }
    let empty = String::new();
    let mut out = String::new();
    let mut i: usize = 0;
    while i < program.statements.len()
        invariant
            i <= program.statements@.len(),
            sv == program@,
            sv.len() == program.statements@.len(),
            forall|k: int| 0 <= k < sv.len() ==> #[trigger] sv[k] == program.statements@[k]@,
            empty@ == Seq::<char>::empty(),
            out@ == fmt_program(sv.take(i as int)),
        decreases program.statements.len() - i,
    {
        if i > 0 {
            out.append("\n");
        }
        push_stmt(&mut out, &program.statements[i], &empty);
        proof {
            assert(sv.take(i + 1).drop_last() =~= sv.take(i as int));
            assert(sv.take(i + 1).last() == sv[i as int]);
            assert(sv.take(i + 1)[0] == sv[0]);
            if i == 0 {
                assert(sv.take(0) =~= Seq::<StmtV>::empty());
            }
            assert(out@ =~= fmt_program(sv.take(i + 1)));
        }
        i += 1;
    }
    proof {
        assert(sv.take(sv.len() as int) =~= sv);
    }
    out
}

} // verus!
