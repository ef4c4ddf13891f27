//! Formatting is a fixed point: the formatted text of any parsed program
//! parses back without a diagnostic, and formatting that parse gives the
//! same text again.
use vstd::prelude::*;
use crate::ast::{Span, BinOp, ExprV, StmtV};
use crate::diagnostics::DiagV;
use crate::format::{fmt_expr, fmt_args, fmt_stmt, fmt_lines, fmt_program};
use crate::lexer::{TokV, TokenV, lex_spec};
use crate::parser::{
    PR, tk, adv, skip_nl, comparison_op_of, add_op_of, mul_op_of, stmt_items, sp_expr, sp_comparison,
    sp_comparison_rest, sp_add, sp_add_rest, sp_mul, sp_mul_rest, sp_unary, sp_primary, sp_args,
    sp_args_rest, sp_stmt, sp_let, sp_block, sp_block_items, sp_program_items, parse_spec,
};
use crate::num::{num_text, lemma_num_text_canonical};
use crate::shape::{cmp_e, add_e, mul_e, un_e, prim_e, stmt_e, lemma_parse_shaped};
use crate::relex::{lemma_lex_formatted, kinds, bin_tok, cmp_tok, ek, ak, lemma_cmp_parts, sk, bk, lk, pk};

verus! {

// ---------------------------------------------------------------------------
// Parsing the tokens of formatted text
// ---------------------------------------------------------------------------

/// The token kinds `k` stand in `t` from `p` on, and a token follows them.
pub open spec fn kat(t: Seq<TokenV>, p: int, k: Seq<TokV>) -> bool {
    &&& 0 <= p
    &&& p + k.len() < t.len()
    &&& forall|j: int| 0 <= j < k.len() ==> tk(t, p + j) == #[trigger] k[j]
}

/// An expression with its literals in canonical form.
pub open spec fn canon(e: ExprV) -> ExprV
    decreases e,
{
    match e {
        ExprV::Num(l) => ExprV::Num(num_text(l)),
        ExprV::Var(n) => ExprV::Var(n),
        ExprV::Neg(x) => ExprV::Neg(Box::new(canon(*x))),
        ExprV::Paren(x) => ExprV::Paren(Box::new(canon(*x))),
        ExprV::Call { name, args } => ExprV::Call { name, args: canon_args(args) },
        ExprV::Bin { op, lhs, rhs } => ExprV::Bin { op, lhs: Box::new(canon(*lhs)), rhs: Box::new(canon(*rhs)) },
        ExprV::Cmp { op, lhs, rhs } => ExprV::Cmp { op, lhs: Box::new(canon(*lhs)), rhs: Box::new(canon(*rhs)) },
    }
}

/// Call arguments with their literals in canonical form.
pub open spec fn canon_args(s: Seq<ExprV>) -> Seq<ExprV>
    decreases s,
{
    if s.len() == 0 {
        seq![]
    } else {
        canon_args(s.drop_last()).push(canon(s.last()))
    }
}

/// Tokens that can start an expression.
pub open spec fn starts_expr(k: TokV) -> bool {
    k is Num || k is Ident || k is Minus || k is LParen
}

/// Tokens that end an expression in formatted text.
pub open spec fn stops_expr(k: TokV) -> bool {
    &&& !(k is LParen)
    &&& mul_op_of(k) is None
    &&& add_op_of(k) is None
    &&& comparison_op_of(k) is None
}

pub(crate) proof fn lemma_kat_split(t: Seq<TokenV>, p: int, a: Seq<TokV>, b: Seq<TokV>)
    requires
        kat(t, p, a + b),
    ensures
        kat(t, p, a),
        kat(t, p + a.len(), b),
{
    assert forall|j: int| 0 <= j < a.len() implies tk(t, p + j) == #[trigger] a[j] by {
        assert((a + b)[j] == a[j]);
    }
    assert forall|j: int| 0 <= j < b.len() implies tk(t, p + a.len() + j) == #[trigger] b[j] by {
        assert((a + b)[a.len() + j] == b[j]);
    }
}

pub(crate) proof fn lemma_ek_head(e: ExprV)
    ensures
        ek(e).len() >= 1,
        starts_expr(ek(e)[0]),
    decreases e,
{
    match e {
        ExprV::Neg(x) => {
            assert((seq![TokV::Minus] + ek(*x))[0] == TokV::Minus);
        },
        ExprV::Paren(x) => {
            assert((seq![TokV::LParen] + ek(*x) + seq![TokV::RParen])[0] == TokV::LParen);
        },
        ExprV::Call { name, args } => {
            assert((seq![TokV::Ident(name), TokV::LParen] + ak(args) + seq![TokV::RParen])[0] == TokV::Ident(name));
        },
        ExprV::Bin { op, lhs, rhs } => {
            lemma_ek_head(*lhs);
            assert((ek(*lhs) + seq![bin_tok(op)] + ek(*rhs))[0] == ek(*lhs)[0]);
        },
        ExprV::Cmp { op, lhs, rhs } => {
            lemma_ek_head(*lhs);
            assert((ek(*lhs) + seq![cmp_tok(op)] + ek(*rhs))[0] == ek(*lhs)[0]);
        },
        _ => {},
    }
}

/// The tokens of the arguments from the `k`-th on, each after a comma.
pub open spec fn ctail(s: Seq<ExprV>, k: int) -> Seq<TokV>
    decreases s.len() - k,
{
    if k < 0 || k >= s.len() {
        seq![]
    } else {
        seq![TokV::Comma] + ek(s[k]) + ctail(s, k + 1)
    }
}

pub(crate) proof fn lemma_ctail_last(s: Seq<ExprV>, k: int)
    requires
        1 <= k <= s.len() - 1,
    ensures
        ctail(s, k) == ctail(s.drop_last(), k) + seq![TokV::Comma] + ek(s.last()),
    decreases s.len() - k,
{
    let dl = s.drop_last();
    if k == s.len() - 1 {
        assert(ctail(dl, k) == Seq::<TokV>::empty());
        assert(ctail(s, k + 1) == Seq::<TokV>::empty());
        assert(ctail(s, k) =~= ctail(dl, k) + seq![TokV::Comma] + ek(s.last()));
    } else {
        lemma_ctail_last(s, k + 1);
        assert(dl[k] == s[k]);
        assert(ctail(s, k) =~= ctail(dl, k) + seq![TokV::Comma] + ek(s.last()));
    }
}

pub(crate) proof fn lemma_ak_split(s: Seq<ExprV>)
    requires
        s.len() >= 1,
    ensures
        ak(s) == ek(s[0]) + ctail(s, 1),
    decreases s.len(),
{
    if s.len() == 1 {
        assert(ctail(s, 1) == Seq::<TokV>::empty());
        assert(ak(s) =~= ek(s[0]) + ctail(s, 1));
    } else {
        let dl = s.drop_last();
        lemma_ak_split(dl);
        lemma_ctail_last(s, 1);
        assert(dl[0] == s[0]);
        assert(ak(s) =~= ek(s[0]) + ctail(s, 1));
    }
}

pub(crate) proof fn lemma_canon_args(s: Seq<ExprV>)
    ensures
        canon_args(s).len() == s.len(),
        forall|k: int| 0 <= k < s.len() ==> #[trigger] canon_args(s)[k] == canon(s[k]),
    decreases s.len(),
{
    if s.len() > 0 {
        lemma_canon_args(s.drop_last());
        assert forall|k: int| 0 <= k < s.len() implies #[trigger] canon_args(s)[k] == canon(s[k]) by {
            if k < s.len() - 1 {
                assert(s.drop_last()[k] == s[k]);
            }
        }
    }
}

pub(crate) proof fn lemma_canon_args_take(s: Seq<ExprV>, k: int)
    requires
        0 <= k < s.len(),
    ensures
        canon_args(s.take(k + 1)) == canon_args(s.take(k)).push(canon(s[k])),
{
    assert(s.take(k + 1).drop_last() =~= s.take(k));
}


pub(crate) proof fn pe(t: Seq<TokenV>, p: int, e: ExprV)
    requires
        cmp_e(e),
        kat(t, p, ek(e)),
        stops_expr(tk(t, p + ek(e).len())),
    ensures
        sp_expr(t, p) == (PR { v: canon(e), pos: p + ek(e).len(), d: Seq::<DiagV>::empty() }),
    decreases e, 5nat,
{
    let m = p + ek(e).len();
    pc(t, p, e);
    assert(sp_comparison_rest(t, m, canon(e)) == (PR { v: canon(e), pos: m, d: Seq::<DiagV>::empty() }));
}

pub(crate) proof fn pc(t: Seq<TokenV>, p: int, e: ExprV)
    requires
        cmp_e(e),
        kat(t, p, ek(e)),
        !(tk(t, p + ek(e).len()) is LParen),
        mul_op_of(tk(t, p + ek(e).len())) is None,
        add_op_of(tk(t, p + ek(e).len())) is None,
    ensures
        sp_comparison(t, p) == sp_comparison_rest(t, p + ek(e).len(), canon(e)),
    decreases e, 4nat,
{
    let m = p + ek(e).len();
    if let ExprV::Cmp { op, lhs, rhs } = e {
        let j = p + ek(*lhs).len();
        lemma_kat_split(t, p, ek(*lhs) + seq![cmp_tok(op)], ek(*rhs));
        lemma_kat_split(t, p, ek(*lhs), seq![cmp_tok(op)]);
        assert(tk(t, j + 0) == seq![cmp_tok(op)][0]);
        pc(t, p, *lhs);
        let q = j + 1;
        pa(t, q, *rhs);
        lemma_ek_head(*rhs);
        assert(sp_add_rest(t, m, canon(*rhs)) == (PR { v: canon(*rhs), pos: m, d: Seq::<DiagV>::empty() }));
        let rest = sp_comparison_rest(t, m, canon(e));
        assert(Seq::<DiagV>::empty() + rest.d =~= rest.d);
        assert(sp_comparison_rest(t, j, canon(*lhs)) == rest);
    } else {
        lemma_ek_head(e);
        pa(t, p, e);
        assert(sp_add_rest(t, m, canon(e)) == (PR { v: canon(e), pos: m, d: Seq::<DiagV>::empty() }));
        let r = sp_comparison_rest(t, m, canon(e));
        assert(Seq::<DiagV>::empty() + r.d =~= r.d);
    }
}

pub(crate) proof fn pa(t: Seq<TokenV>, p: int, e: ExprV)
    requires
        add_e(e),
        kat(t, p, ek(e)),
        !(tk(t, p + ek(e).len()) is LParen),
        mul_op_of(tk(t, p + ek(e).len())) is None,
    ensures
        sp_add(t, p) == sp_add_rest(t, p + ek(e).len(), canon(e)),
    decreases e, 3nat,
{
    let m = p + ek(e).len();
    lemma_ek_head(e);
    let is_add = e matches ExprV::Bin { op, .. } && (op == BinOp::Add || op == BinOp::Sub);
    if is_add {
        if let ExprV::Bin { op, lhs, rhs } = e {
            let j = p + ek(*lhs).len();
            lemma_kat_split(t, p, ek(*lhs) + seq![bin_tok(op)], ek(*rhs));
            lemma_kat_split(t, p, ek(*lhs), seq![bin_tok(op)]);
            assert(tk(t, j + 0) == seq![bin_tok(op)][0]);
            pa(t, p, *lhs);
            let q = j + 1;
            pm(t, q, *rhs);
            lemma_ek_head(*rhs);
            assert(sp_mul_rest(t, m, canon(*rhs)) == (PR { v: canon(*rhs), pos: m, d: Seq::<DiagV>::empty() }));
            let rest = sp_add_rest(t, m, canon(e));
            assert(Seq::<DiagV>::empty() + rest.d =~= rest.d);
            assert(sp_add_rest(t, j, canon(*lhs)) == rest);
        }
    } else {
        assert(mul_e(e));
        pm(t, p, e);
        assert(sp_mul_rest(t, m, canon(e)) == (PR { v: canon(e), pos: m, d: Seq::<DiagV>::empty() }));
        let r = sp_add_rest(t, m, canon(e));
        assert(Seq::<DiagV>::empty() + r.d =~= r.d);
    }
}

pub(crate) proof fn pm(t: Seq<TokenV>, p: int, e: ExprV)
    requires
        mul_e(e),
        kat(t, p, ek(e)),
        !(tk(t, p + ek(e).len()) is LParen),
    ensures
        sp_mul(t, p) == sp_mul_rest(t, p + ek(e).len(), canon(e)),
    decreases e, 2nat,
{
    let m = p + ek(e).len();
    lemma_ek_head(e);
    if let ExprV::Bin { op, lhs, rhs } = e {
        let j = p + ek(*lhs).len();
        lemma_kat_split(t, p, ek(*lhs) + seq![bin_tok(op)], ek(*rhs));
        lemma_kat_split(t, p, ek(*lhs), seq![bin_tok(op)]);
        assert(tk(t, j + 0) == seq![bin_tok(op)][0]);
        pm(t, p, *lhs);
        let q = j + 1;
        lemma_ek_head(*rhs);
        pu(t, q, *rhs);
        let rest = sp_mul_rest(t, m, canon(e));
        assert(Seq::<DiagV>::empty() + rest.d =~= rest.d);
        assert(sp_mul_rest(t, j, canon(*lhs)) == rest);
    } else {
        pu(t, p, e);
        let r = sp_mul_rest(t, m, canon(e));
        assert(Seq::<DiagV>::empty() + r.d =~= r.d);
    }
}

pub(crate) proof fn pu(t: Seq<TokenV>, p: int, e: ExprV)
    requires
        un_e(e),
        kat(t, p, ek(e)),
        !(tk(t, p + ek(e).len()) is LParen),
    ensures
        sp_unary(t, p) == (PR { v: canon(e), pos: p + ek(e).len(), d: Seq::<DiagV>::empty() }),
    decreases e, 1nat,
{
    lemma_ek_head(e);
    if let ExprV::Neg(x) = e {
        lemma_kat_split(t, p, seq![TokV::Minus], ek(*x));
        assert(tk(t, p + 0) == seq![TokV::Minus][0]);
        pu(t, p + 1, *x);
    } else {
        pp(t, p, e);
        assert(!(tk(t, p) is Minus));
    }
}

#[verifier::rlimit(100)]
pub(crate) proof fn pp(t: Seq<TokenV>, p: int, e: ExprV)
    requires
        prim_e(e),
        kat(t, p, ek(e)),
        !(tk(t, p + ek(e).len()) is LParen),
    ensures
        sp_primary(t, p) == (PR { v: canon(e), pos: p + ek(e).len(), d: Seq::<DiagV>::empty() }),
    decreases e, 0nat,
{
    let m = p + ek(e).len();
    assert(tk(t, p + 0) == ek(e)[0]);
    match e {
        ExprV::Paren(x) => {
            lemma_kat_split(t, p, seq![TokV::LParen] + ek(*x), seq![TokV::RParen]);
            lemma_kat_split(t, p, seq![TokV::LParen], ek(*x));
            assert(tk(t, m - 1 + 0) == seq![TokV::RParen][0]);
            pe(t, p + 1, *x);
        },
        ExprV::Call { name, args } => {
            lemma_kat_split(t, p, seq![TokV::Ident(name), TokV::LParen] + ak(args), seq![TokV::RParen]);
            lemma_kat_split(t, p, seq![TokV::Ident(name), TokV::LParen], ak(args));
            assert(tk(t, p + 1) == seq![TokV::Ident(name), TokV::LParen][1]);
            assert(tk(t, m - 1 + 0) == seq![TokV::RParen][0]);
            if args.len() > 0 {
                lemma_ak_split(args);
                lemma_ek_head(args[0]);
                assert(tk(t, p + 2 + 0) == ak(args)[0]);
            }
            assert(skip_nl(t, p + 2) == p + 2);
            pargs(t, p + 2, args);
        },
        _ => {},
    }
}

pub(crate) proof fn pargs(t: Seq<TokenV>, p: int, args: Seq<ExprV>)
    requires
        forall|k: int| 0 <= k < args.len() ==> cmp_e(#[trigger] args[k]),
        kat(t, p, ak(args)),
        tk(t, p + ak(args).len()) is RParen,
    ensures
        sp_args(t, p) == (PR { v: canon_args(args), pos: p + ak(args).len(), d: Seq::<DiagV>::empty() }),
    decreases args, args.len() + 1,
{
    if args.len() > 0 {
        lemma_ak_split(args);
        lemma_kat_split(t, p, ek(args[0]), ctail(args, 1));
        lemma_ek_head(args[0]);
        assert(tk(t, p + 0) == ek(args[0])[0]);
        let j = p + ek(args[0]).len();
        if args.len() > 1 {
            assert(ctail(args, 1) == seq![TokV::Comma] + ek(args[1]) + ctail(args, 2));
            assert(tk(t, j + 0) == ctail(args, 1)[0]);
        } else {
            assert(ctail(args, 1) == Seq::<TokV>::empty());
        }
        pe(t, p, args[0]);
        assert(args.take(1) =~= seq![args[0]]);
        lemma_canon_args(seq![args[0]]);
        assert(canon_args(seq![args[0]]) =~= seq![canon(args[0])]);
        pargs_rest(t, j, args, 1, seq![canon(args[0])]);
        let r = sp_args_rest(t, j, seq![canon(args[0])]);
        assert(Seq::<DiagV>::empty() + r.d =~= r.d);
    } else {
        assert(canon_args(args) == Seq::<ExprV>::empty());
    }
}

pub(crate) proof fn pargs_rest(t: Seq<TokenV>, p: int, args: Seq<ExprV>, k: int, acc: Seq<ExprV>)
    requires
        1 <= k <= args.len(),
        forall|j: int| 0 <= j < args.len() ==> cmp_e(#[trigger] args[j]),
        kat(t, p, ctail(args, k)),
        tk(t, p + ctail(args, k).len()) is RParen,
        acc == canon_args(args.take(k)),
    ensures
        sp_args_rest(t, p, acc) == (PR { v: canon_args(args), pos: p + ctail(args, k).len(), d: Seq::<DiagV>::empty() }),
    decreases args, args.len() - k,
{
    if k == args.len() {
        assert(args.take(k) =~= args);
        assert(ctail(args, k) == Seq::<TokV>::empty());
    } else {
        let c = ctail(args, k);
        assert(c == seq![TokV::Comma] + ek(args[k]) + ctail(args, k + 1));
        lemma_kat_split(t, p, seq![TokV::Comma] + ek(args[k]), ctail(args, k + 1));
        lemma_kat_split(t, p, seq![TokV::Comma], ek(args[k]));
        assert(tk(t, p + 0) == seq![TokV::Comma][0]);
        lemma_ek_head(args[k]);
        assert(tk(t, p + 1 + 0) == ek(args[k])[0]);
        assert(skip_nl(t, p + 1) == p + 1);
        let j = p + 1 + ek(args[k]).len();
        if k + 1 < args.len() {
            assert(ctail(args, k + 1) == seq![TokV::Comma] + ek(args[k + 1]) + ctail(args, k + 2));
            assert(tk(t, j + 0) == ctail(args, k + 1)[0]);
        } else {
            assert(ctail(args, k + 1) == Seq::<TokV>::empty());
        }
        pe(t, p + 1, args[k]);
        lemma_canon_args_take(args, k);
        pargs_rest(t, j, args, k + 1, acc.push(canon(args[k])));
        let r = sp_args_rest(t, j, acc.push(canon(args[k])));
        assert(Seq::<DiagV>::empty() + r.d =~= r.d);
    }
}


// ---------------------------------------------------------------------------
// Formatted text of what is parsed back
// ---------------------------------------------------------------------------

pub(crate) proof fn lemma_fmt_canon(e: ExprV)
    requires
        cmp_e(e),
    ensures
        fmt_expr(canon(e)) == fmt_expr(e),
    decreases e,
{
    lemma_cmp_parts(e);
    match e {
        ExprV::Num(l) => {
            lemma_num_text_canonical(l);
        },
        ExprV::Neg(x) => {
            lemma_fmt_canon(*x);
        },
        ExprV::Paren(x) => {
            lemma_fmt_canon(*x);
        },
        ExprV::Call { name, args } => {
            lemma_fmt_canon_args(args);
        },
        ExprV::Bin { op, lhs, rhs } => {
            lemma_fmt_canon(*lhs);
            lemma_fmt_canon(*rhs);
        },
        ExprV::Cmp { op, lhs, rhs } => {
            lemma_fmt_canon(*lhs);
            lemma_fmt_canon(*rhs);
        },
        _ => {},
    }
}

pub(crate) proof fn lemma_fmt_canon_args(s: Seq<ExprV>)
    requires
        forall|k: int| 0 <= k < s.len() ==> cmp_e(#[trigger] s[k]),
    ensures
        fmt_args(canon_args(s)) == fmt_args(s),
    decreases s,
{
    lemma_canon_args(s);
    let c = canon_args(s);
    if s.len() == 1 {
        lemma_fmt_canon(s[0]);
    } else if s.len() > 1 {
        let dl = s.drop_last();
        assert forall|k: int| 0 <= k < dl.len() implies cmp_e(#[trigger] dl[k]) by {
            assert(dl[k] == s[k]);
        }
        lemma_fmt_canon_args(dl);
        lemma_fmt_canon(s.last());
        assert(c.drop_last() == canon_args(dl));
    }
}

/// Two statements with the same formatted text at every indentation.
pub open spec fn same_text(x: StmtV, y: StmtV) -> bool {
    forall|pad: Seq<char>| #[trigger] fmt_stmt(x, pad) == fmt_stmt(y, pad)
}

/// Two statement lists with the same formatted text, statement by statement.
pub open spec fn same_lines(xs: Seq<StmtV>, ys: Seq<StmtV>) -> bool {
    &&& xs.len() == ys.len()
    &&& forall|k: int| 0 <= k < xs.len() ==> #[trigger] same_text(xs[k], ys[k])
}

pub(crate) proof fn lemma_same_lines_fmt(xs: Seq<StmtV>, ys: Seq<StmtV>)
    requires
        same_lines(xs, ys),
    ensures
        forall|pad: Seq<char>| #[trigger] fmt_lines(xs, pad) == fmt_lines(ys, pad),
        fmt_program(xs) == fmt_program(ys),
    decreases xs.len(),
{
    if xs.len() > 0 {
        let a = xs.drop_last();
        let b = ys.drop_last();
        assert forall|k: int| 0 <= k < a.len() implies #[trigger] same_text(a[k], b[k]) by {
            assert(a[k] == xs[k]);
            assert(b[k] == ys[k]);
            assert(same_text(xs[k], ys[k]));
        }
        lemma_same_lines_fmt(a, b);
        assert(same_text(xs[xs.len() - 1], ys[ys.len() - 1]));
        assert forall|pad: Seq<char>| #[trigger] fmt_lines(xs, pad) == fmt_lines(ys, pad) by {
            assert(fmt_stmt(xs[xs.len() - 1], pad) == fmt_stmt(ys[ys.len() - 1], pad));
            assert(fmt_lines(a, pad) == fmt_lines(b, pad));
            assert(xs.last() == xs[xs.len() - 1]);
            assert(ys.last() == ys[ys.len() - 1]);
        }
        if xs.len() == 1 {
            assert(fmt_stmt(xs[0], seq![]) == fmt_stmt(ys[0], seq![]));
        } else {
            assert(fmt_stmt(xs[xs.len() - 1], seq![]) == fmt_stmt(ys[ys.len() - 1], seq![]));
        }
    }
}

pub(crate) proof fn lemma_same_lines_cons(x: StmtV, xs: Seq<StmtV>, ys: Seq<StmtV>)
    requires
        ys.len() >= 1,
        same_text(x, ys[0]),
        same_lines(xs, ys.drop_first()),
    ensures
        same_lines(seq![x] + xs, ys),
{
    let v = seq![x] + xs;
    assert forall|k: int| 0 <= k < v.len() implies #[trigger] same_text(v[k], ys[k]) by {
        if k > 0 {
            assert(v[k] == xs[k - 1]);
            assert(ys.drop_first()[k - 1] == ys[k]);
            assert(same_text(xs[k - 1], ys.drop_first()[k - 1]));
        }
    }
}

pub(crate) proof fn lemma_sk_head(st: StmtV)
    ensures
        sk(st).len() >= 1,
        sk(st)[0] is Let || sk(st)[0] is Observe || sk(st)[0] is If,
{
    match st {
        StmtV::If { cond, then_body, else_body, .. } => {
            let head = seq![TokV::If] + ek(cond) + bk(then_body);
            assert(head[0] == TokV::If);
            if else_body.len() > 0 {
                assert((head + seq![TokV::Else] + bk(else_body))[0] == TokV::If);
            }
        },
        StmtV::Observe { dist, value, .. } => {
            assert((seq![TokV::Observe] + ek(dist) + seq![TokV::Equals] + ek(value))[0] == TokV::Observe);
        },
        StmtV::Prior { name, dist, .. } => {
            assert((seq![TokV::Let, TokV::Ident(name), TokV::Tilde] + ek(dist))[0] == TokV::Let);
        },
        StmtV::Let { name, value, .. } => {
            assert((seq![TokV::Let, TokV::Ident(name), TokV::Equals] + ek(value))[0] == TokV::Let);
        },
    }
}

pub(crate) proof fn lemma_lk_split(s: Seq<StmtV>)
    requires
        s.len() >= 1,
    ensures
        lk(s) == sk(s[0]) + seq![TokV::Newline] + lk(s.drop_first()),
    decreases s.len(),
{
    if s.len() == 1 {
        assert(s.drop_first().len() == 0);
        assert(lk(s.drop_last()) == Seq::<TokV>::empty());
        assert(lk(s) =~= sk(s[0]) + seq![TokV::Newline] + lk(s.drop_first()));
    } else {
        let dl = s.drop_last();
        lemma_lk_split(dl);
        assert(dl[0] == s[0]);
        assert(dl.drop_first() =~= s.drop_first().drop_last());
        assert(s.drop_first().last() == s.last());
        assert(lk(s) =~= sk(s[0]) + seq![TokV::Newline] + lk(s.drop_first()));
    }
}

pub(crate) proof fn lemma_pk_split(s: Seq<StmtV>)
    requires
        s.len() >= 2,
    ensures
        pk(s) == sk(s[0]) + seq![TokV::Newline] + pk(s.drop_first()),
    decreases s.len(),
{
    let dl = s.drop_last();
    if s.len() == 2 {
        assert(pk(s.drop_first()) == sk(s[1]));
        assert(pk(dl) == sk(s[0]));
        assert(pk(s) =~= sk(s[0]) + seq![TokV::Newline] + pk(s.drop_first()));
    } else {
        lemma_pk_split(dl);
        assert(dl[0] == s[0]);
        assert(dl.drop_first() =~= s.drop_first().drop_last());
        assert(s.drop_first().last() == s.last());
        assert(pk(s) =~= sk(s[0]) + seq![TokV::Newline] + pk(s.drop_first()));
    }
}

pub(crate) proof fn lemma_skip_one_nl(t: Seq<TokenV>, a: int)
    requires
        0 <= a < t.len() - 1,
        tk(t, a) is Newline,
        !(tk(t, a + 1) is Newline),
    ensures
        skip_nl(t, a) == a + 1,
{
    assert(skip_nl(t, a + 1) == a + 1);
}


/// Tokens that end a statement in formatted text.
pub open spec fn stops_stmt(k: TokV) -> bool {
    k is Newline || k is Eof
}

pub(crate) proof fn ps(t: Seq<TokenV>, p: int, st: StmtV)
    requires
        stmt_e(st),
        kat(t, p, sk(st)),
        stops_stmt(tk(t, p + sk(st).len())),
    ensures
        sp_stmt(t, p).pos == p + sk(st).len(),
        sp_stmt(t, p).d == Seq::<DiagV>::empty(),
        sp_stmt(t, p).v matches Some(x) && same_text(x, st),
    decreases st, 2nat,
{
    match st {
        StmtV::If { .. } => pif(t, p, st),
        StmtV::Observe { .. } => pobserve(t, p, st),
        _ => pdecl(t, p, st),
    }
}

#[verifier::rlimit(100)]
pub(crate) proof fn pdecl(t: Seq<TokenV>, p: int, st: StmtV)
    requires
        st is Prior || st is Let,
        stmt_e(st),
        kat(t, p, sk(st)),
        stops_stmt(tk(t, p + sk(st).len())),
    ensures
        sp_stmt(t, p).pos == p + sk(st).len(),
        sp_stmt(t, p).d == Seq::<DiagV>::empty(),
        sp_stmt(t, p).v matches Some(x) && same_text(x, st),
{
    let m = p + sk(st).len();
    match st {
        StmtV::Prior { name, dist, .. } => {
            let h = seq![TokV::Let, TokV::Ident(name), TokV::Tilde];
            lemma_kat_split(t, p, h, ek(dist));
            assert(tk(t, p + 0) == h[0]);
            assert(tk(t, p + 1) == h[1]);
            assert(tk(t, p + 2) == h[2]);
            pe(t, p + 3, dist);
            lemma_fmt_canon(dist);
            let y = StmtV::Prior { name, dist: canon(dist), span: Span { start: t[p].span.start, end: t[m].span.end } };
            assert(adv(t, p) == p + 1);
            assert(adv(t, p + 1) == p + 2);
            assert(adv(t, p + 2) == p + 3);
            assert(sp_expr(t, p + 3).pos == m);
            assert(sp_let(t, p) == (PR { v: Some(y), pos: m, d: Seq::<DiagV>::empty() }));
            assert(sp_stmt(t, p) == sp_let(t, p));
            assert forall|pad: Seq<char>| #[trigger] fmt_stmt(y, pad) == fmt_stmt(st, pad) by {}
        },
        StmtV::Let { name, value, .. } => {
            let h = seq![TokV::Let, TokV::Ident(name), TokV::Equals];
            lemma_kat_split(t, p, h, ek(value));
            assert(tk(t, p + 0) == h[0]);
            assert(tk(t, p + 1) == h[1]);
            assert(tk(t, p + 2) == h[2]);
            pe(t, p + 3, value);
            lemma_fmt_canon(value);
            let y = StmtV::Let { name, value: canon(value), span: Span { start: t[p].span.start, end: t[m].span.end } };
            assert(adv(t, p) == p + 1);
            assert(adv(t, p + 1) == p + 2);
            assert(adv(t, p + 2) == p + 3);
            assert(sp_expr(t, p + 3).pos == m);
            assert(sp_let(t, p) == (PR { v: Some(y), pos: m, d: Seq::<DiagV>::empty() }));
            assert(sp_stmt(t, p) == sp_let(t, p));
            assert forall|pad: Seq<char>| #[trigger] fmt_stmt(y, pad) == fmt_stmt(st, pad) by {}
        },
        _ => {},
    }
}

pub(crate) proof fn pobserve(t: Seq<TokenV>, p: int, st: StmtV)
    requires
        st is Observe,
        stmt_e(st),
        kat(t, p, sk(st)),
        stops_stmt(tk(t, p + sk(st).len())),
    ensures
        sp_stmt(t, p).pos == p + sk(st).len(),
        sp_stmt(t, p).d == Seq::<DiagV>::empty(),
        sp_stmt(t, p).v matches Some(x) && same_text(x, st),
{
    let m = p + sk(st).len();
    if let StmtV::Observe { dist, value, .. } = st {
        let a = seq![TokV::Observe];
        let b = seq![TokV::Equals];
        lemma_kat_split(t, p, a + ek(dist) + b, ek(value));
        lemma_kat_split(t, p, a + ek(dist), b);
        lemma_kat_split(t, p, a, ek(dist));
        let j = p + 1 + ek(dist).len();
        assert(tk(t, p + 0) == a[0]);
        assert(tk(t, j + 0) == b[0]);
        pe(t, p + 1, dist);
        pe(t, j + 1, value);
        lemma_fmt_canon(dist);
        lemma_fmt_canon(value);
        let y = StmtV::Observe {
            dist: canon(dist),
            value: canon(value),
            span: Span { start: t[p].span.start, end: t[m].span.end },
        };
        assert(Seq::<DiagV>::empty() + Seq::<DiagV>::empty() =~= Seq::<DiagV>::empty());
        assert(sp_stmt(t, p).v == Some(y));
        assert forall|pad: Seq<char>| #[trigger] fmt_stmt(y, pad) == fmt_stmt(st, pad) by {}
    }
}

#[verifier::rlimit(100)]
pub(crate) proof fn pif(t: Seq<TokenV>, p: int, st: StmtV)
    requires
        st is If,
        stmt_e(st),
        kat(t, p, sk(st)),
        stops_stmt(tk(t, p + sk(st).len())),
    ensures
        sp_stmt(t, p).pos == p + sk(st).len(),
        sp_stmt(t, p).d == Seq::<DiagV>::empty(),
        sp_stmt(t, p).v matches Some(x) && same_text(x, st),
    decreases st, 1nat,
{
    let m = p + sk(st).len();
    if let StmtV::If { cond, then_body, else_body, .. } = st {
        let head = seq![TokV::If] + ek(cond) + bk(then_body);
        let tail = if else_body.len() == 0 { Seq::<TokV>::empty() } else { seq![TokV::Else] + bk(else_body) };
        assert(sk(st) =~= head + tail);
        lemma_kat_split(t, p, head, tail);
        lemma_kat_split(t, p, seq![TokV::If] + ek(cond), bk(then_body));
        lemma_kat_split(t, p, seq![TokV::If], ek(cond));
        assert(tk(t, p + 0) == seq![TokV::If][0]);
        let jc = p + 1 + ek(cond).len();
        assert(tk(t, jc + 0) == bk(then_body)[0]);
        pe(t, p + 1, cond);
        lemma_fmt_canon(cond);
        pblock(t, jc, then_body);
        let tb = sp_block(t, jc + 1);
        let hm = p + head.len();
        assert(tb.pos == hm);
        let xs = tb.v;
        lemma_same_lines_fmt(xs, then_body);
        let ys: Seq<StmtV> = if else_body.len() == 0 {
            assert(hm == m);
            Seq::<StmtV>::empty()
        } else {
            lemma_kat_split(t, hm, seq![TokV::Else], bk(else_body));
            assert(tk(t, hm + 0) == seq![TokV::Else][0]);
            assert(tk(t, hm + 1 + 0) == bk(else_body)[0]);
            pblock(t, hm + 1, else_body);
            lemma_same_lines_fmt(sp_block(t, hm + 2).v, else_body);
            sp_block(t, hm + 2).v
        };
        let y = StmtV::If {
            cond: canon(cond),
            then_body: xs,
            else_body: ys,
            span: Span { start: t[p].span.start, end: t[m].span.end },
        };
        assert(Seq::<DiagV>::empty() + Seq::<DiagV>::empty() + Seq::<DiagV>::empty() =~= Seq::<DiagV>::empty());
        assert(sp_stmt(t, p).v == Some(y));
        assert forall|pad: Seq<char>| #[trigger] fmt_stmt(y, pad) == fmt_stmt(st, pad) by {
            assert(fmt_lines(xs, pad + "  "@) == fmt_lines(then_body, pad + "  "@));
            if else_body.len() > 0 {
                assert(fmt_lines(ys, pad + "  "@) == fmt_lines(else_body, pad + "  "@));
            }
        }
    }
}

pub(crate) proof fn pblock(t: Seq<TokenV>, q: int, body: Seq<StmtV>)
    requires
        forall|k: int| 0 <= k < body.len() ==> stmt_e(#[trigger] body[k]),
        kat(t, q, bk(body)),
    ensures
        sp_block(t, q + 1).pos == q + bk(body).len(),
        sp_block(t, q + 1).d == Seq::<DiagV>::empty(),
        same_lines(sp_block(t, q + 1).v, body),
    decreases body, 1nat,
{
    let a = seq![TokV::LBrace, TokV::Newline];
    lemma_kat_split(t, q, a + lk(body), seq![TokV::RBrace]);
    lemma_kat_split(t, q, a, lk(body));
    assert(tk(t, q + 1) == a[1]);
    let j = q + 2 + lk(body).len();
    assert(tk(t, j + 0) == seq![TokV::RBrace][0]);
    if body.len() > 0 {
        lemma_lk_split(body);
        lemma_sk_head(body[0]);
        assert(tk(t, q + 2 + 0) == lk(body)[0]);
    }
    lemma_skip_one_nl(t, q + 1);
    pbitems(t, q + 2, body);
}

pub(crate) proof fn pbitems(t: Seq<TokenV>, p: int, sts: Seq<StmtV>)
    requires
        forall|k: int| 0 <= k < sts.len() ==> stmt_e(#[trigger] sts[k]),
        kat(t, p, lk(sts)),
        tk(t, p + lk(sts).len()) is RBrace,
    ensures
        sp_block_items(t, p).pos == p + lk(sts).len(),
        sp_block_items(t, p).d == Seq::<DiagV>::empty(),
        same_lines(sp_block_items(t, p).v, sts),
    decreases sts, 0nat,
{
    if sts.len() > 0 {
        lemma_lk_split(sts);
        let rest = sts.drop_first();
        lemma_kat_split(t, p, sk(sts[0]) + seq![TokV::Newline], lk(rest));
        lemma_kat_split(t, p, sk(sts[0]), seq![TokV::Newline]);
        lemma_sk_head(sts[0]);
        assert(tk(t, p + 0) == sk(sts[0])[0]);
        let j = p + sk(sts[0]).len();
        assert(tk(t, j + 0) == seq![TokV::Newline][0]);
        ps(t, p, sts[0]);
        if rest.len() > 0 {
            lemma_lk_split(rest);
            lemma_sk_head(rest[0]);
            assert(tk(t, j + 1 + 0) == lk(rest)[0]);
        }
        lemma_skip_one_nl(t, j);
        assert forall|k: int| 0 <= k < rest.len() implies stmt_e(#[trigger] rest[k]) by {
            assert(rest[k] == sts[k + 1]);
        }
        pbitems(t, j + 1, rest);
        let s = sp_stmt(t, p);
        let r = sp_block_items(t, j + 1);
        if let Some(x) = s.v {
            lemma_same_lines_cons(x, r.v, sts);
            assert(stmt_items(s.v) == seq![x]);
        }
        assert(Seq::<DiagV>::empty() + Seq::<DiagV>::empty() =~= Seq::<DiagV>::empty());
    }
}

pub(crate) proof fn pprog(t: Seq<TokenV>, p: int, sts: Seq<StmtV>)
    requires
        forall|k: int| 0 <= k < sts.len() ==> stmt_e(#[trigger] sts[k]),
        kat(t, p, pk(sts)),
        p + pk(sts).len() == t.len() - 1,
        tk(t, t.len() - 1) is Eof,
    ensures
        sp_program_items(t, p).d == Seq::<DiagV>::empty(),
        same_lines(sp_program_items(t, p).v, sts),
    decreases sts.len(),
{
    if sts.len() > 0 {
        lemma_sk_head(sts[0]);
        let j = p + sk(sts[0]).len();
        if sts.len() == 1 {
            assert(tk(t, p + 0) == pk(sts)[0]);
            ps(t, p, sts[0]);
            assert(skip_nl(t, j) == j);
            assert(sp_program_items(t, j).v == Seq::<StmtV>::empty());
            let s = sp_stmt(t, p);
            if let Some(x) = s.v {
                lemma_same_lines_cons(x, Seq::<StmtV>::empty(), sts);
                assert(stmt_items(s.v) + Seq::<StmtV>::empty() =~= seq![x]);
            }
            assert(Seq::<DiagV>::empty() + Seq::<DiagV>::empty() =~= Seq::<DiagV>::empty());
        } else {
            lemma_pk_split(sts);
            let rest = sts.drop_first();
            lemma_kat_split(t, p, sk(sts[0]) + seq![TokV::Newline], pk(rest));
            lemma_kat_split(t, p, sk(sts[0]), seq![TokV::Newline]);
            assert(tk(t, p + 0) == sk(sts[0])[0]);
            assert(tk(t, j + 0) == seq![TokV::Newline][0]);
            ps(t, p, sts[0]);
            if rest.len() >= 2 {
                lemma_pk_split(rest);
            }
            lemma_sk_head(rest[0]);
            assert(tk(t, j + 1 + 0) == pk(rest)[0]);
            lemma_skip_one_nl(t, j);
            assert forall|k: int| 0 <= k < rest.len() implies stmt_e(#[trigger] rest[k]) by {
                assert(rest[k] == sts[k + 1]);
            }
            pprog(t, j + 1, rest);
            let s = sp_stmt(t, p);
            let r = sp_program_items(t, j + 1);
            if let Some(x) = s.v {
                lemma_same_lines_cons(x, r.v, sts);
                assert(stmt_items(s.v) == seq![x]);
            }
            assert(Seq::<DiagV>::empty() + Seq::<DiagV>::empty() =~= Seq::<DiagV>::empty());
        }
    }
}


/// A formatted program of well-shaped statements parses back without a
/// diagnostic into statements with the same formatted text.
pub(crate) proof fn lemma_parse_formatted(sts: Seq<StmtV>)
    requires
        forall|k: int| 0 <= k < sts.len() ==> stmt_e(#[trigger] sts[k]),
    ensures
        parse_spec(fmt_program(sts)).1 == Seq::<DiagV>::empty(),
        same_lines(parse_spec(fmt_program(sts)).0, sts),
{
    let f = fmt_program(sts);
    lemma_lex_formatted(sts);
    let t = lex_spec(f).0;
    let kk = pk(sts) + seq![TokV::Eof];
    assert(kinds(t) == kk);
    assert(t.len() == kinds(t).len());
    assert forall|j: int| 0 <= j < pk(sts).len() implies tk(t, 0 + j) == #[trigger] pk(sts)[j] by {
        assert(kinds(t)[j] == t[j].tok);
        assert(kk[j] == pk(sts)[j]);
    }
    assert(kinds(t)[t.len() - 1] == t[t.len() - 1].tok);
    assert(tk(t, t.len() - 1) == kk[kk.len() - 1]);
    if sts.len() > 0 {
        lemma_sk_head(sts[0]);
        if sts.len() >= 2 {
            lemma_pk_split(sts);
        }
        assert(tk(t, 0) == pk(sts)[0]);
    }
    assert(skip_nl(t, 0) == 0);
    pprog(t, 0, sts);
    assert(Seq::<DiagV>::empty() + Seq::<DiagV>::empty() =~= Seq::<DiagV>::empty());
}

/// Formatting is idempotent: the formatted text of any parsed program
/// parses back without a diagnostic, and formatting that parse gives the
/// same text again.
pub proof fn lemma_format_idempotent(src: Seq<char>)
    ensures
        parse_spec(fmt_program(parse_spec(src).0)).1 == Seq::<DiagV>::empty(),
        fmt_program(parse_spec(fmt_program(parse_spec(src).0)).0) == fmt_program(parse_spec(src).0),
{
    lemma_parse_shaped(src);
    let p = parse_spec(src).0;
    lemma_parse_formatted(p);
    lemma_same_lines_fmt(parse_spec(fmt_program(p)).0, p);
}

} // verus!
