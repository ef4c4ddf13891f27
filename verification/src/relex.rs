//! How the lexer reads formatted text: a formatted program of well-shaped
//! statements lexes, without a diagnostic, to a token stream fixed by the
//! program alone.
use vstd::prelude::*;
use crate::ast::{Span, BinOp, CmpOp, ExprV, StmtV};
use crate::diagnostics::DiagV;
use crate::format::{fmt_expr, fmt_args, fmt_stmt, fmt_lines, fmt_program, bin_op_text, comparison_text};
use crate::lexer::{
    TokV, TokenV, Step, step, step_next, lex_from, lex_spec, is_digit, is_alpha, is_ident_char, word_tok,
    lemma_step_advances, next_is_eq,
};
use crate::num::{lit_wf, num_text, lemma_num_text_chars};
use crate::shape::{
    ident_name, lemma_number_end_at, lemma_ident_end_at, cmp_e, add_e, mul_e, un_e, prim_e, stmt_e,
    lemma_un_cmp, lemma_mul_cmp, lemma_add_cmp,
};

verus! {

// ---------------------------------------------------------------------------
// Lexing formatted text
// ---------------------------------------------------------------------------

/// The kinds of a token stream.
pub open spec fn kinds(t: Seq<TokenV>) -> Seq<TokV> {
    t.map_values(|x: TokenV| x.tok)
}

/// From `i` on, the lexer emits tokens of kinds `k` and no diagnostic
/// before it continues as it would from `j`.
pub open spec fn lexes_to(s: Seq<char>, i: int, j: int, k: Seq<TokV>) -> bool {
    &&& kinds(lex_from(s, i).0) == k + kinds(lex_from(s, j).0)
    &&& lex_from(s, i).1 == lex_from(s, j).1
}

/// The text `w` stands in `s` at `i`.
pub open spec fn at(s: Seq<char>, i: int, w: Seq<char>) -> bool {
    &&& 0 <= i
    &&& i + w.len() <= s.len()
    &&& forall|k: int| 0 <= k < w.len() ==> s[i + k] == #[trigger] w[k]
}

/// A position where a name or a number literal ends.
pub open spec fn end_ok(s: Seq<char>, m: int) -> bool {
    m == s.len() || (!is_ident_char(s[m]) && s[m] != '.')
}

/// The token of a one-character symbol.
pub open spec fn punct_tok(c: char) -> Option<TokV> {
    if c == '~' {
        Some(TokV::Tilde)
    } else if c == '=' {
        Some(TokV::Equals)
    } else if c == '>' {
        Some(TokV::Gt)
    } else if c == '<' {
        Some(TokV::Lt)
    } else if c == '+' {
        Some(TokV::Plus)
    } else if c == '-' {
        Some(TokV::Minus)
    } else if c == '*' {
        Some(TokV::Star)
    } else if c == '/' {
        Some(TokV::Slash)
    } else if c == '(' {
        Some(TokV::LParen)
    } else if c == ')' {
        Some(TokV::RParen)
    } else if c == '{' {
        Some(TokV::LBrace)
    } else if c == '}' {
        Some(TokV::RBrace)
    } else if c == ',' {
        Some(TokV::Comma)
    } else if c == '\n' {
        Some(TokV::Newline)
    } else {
        None
    }
}

pub(crate) proof fn lemma_at_split(s: Seq<char>, i: int, a: Seq<char>, b: Seq<char>)
    requires
        at(s, i, a + b),
    ensures
        at(s, i, a),
        at(s, i + a.len(), b),
{
    assert forall|k: int| 0 <= k < a.len() implies s[i + k] == #[trigger] a[k] by {
        assert((a + b)[k] == a[k]);
    }
    assert forall|k: int| 0 <= k < b.len() implies s[i + a.len() + k] == #[trigger] b[k] by {
        assert((a + b)[a.len() + k] == b[k]);
    }
}

pub(crate) proof fn lemma_lex_step(s: Seq<char>, i: int)
    requires
        0 <= i < s.len(),
    ensures
        step(s, i) matches Step::Emit(k, e) ==> lexes_to(s, i, e, seq![k]),
        step(s, i) matches Step::Skip(e) ==> lexes_to(s, i, e, seq![]),
{
    lemma_step_advances(s, i);
    let e = step_next(step(s, i));
    let rest = lex_from(s, e);
    match step(s, i) {
        Step::Emit(k, end) => {
            let tok = TokenV { tok: k, span: Span { start: i as usize, end: end as usize } };
            assert(lex_from(s, i).0 == seq![tok] + rest.0);
            assert(kinds(seq![tok] + rest.0) =~= seq![k] + kinds(rest.0));
        },
        Step::Skip(_) => {
            assert(Seq::<TokV>::empty() + kinds(rest.0) =~= kinds(rest.0));
        },
        _ => {},
    }
}

pub(crate) proof fn lemma_lexes_refl(s: Seq<char>, i: int)
    ensures
        lexes_to(s, i, i, seq![]),
{
    assert(Seq::<TokV>::empty() + kinds(lex_from(s, i).0) =~= kinds(lex_from(s, i).0));
}

pub(crate) proof fn lemma_lexes_trans(s: Seq<char>, i: int, j: int, m: int, k1: Seq<TokV>, k2: Seq<TokV>)
    requires
        lexes_to(s, i, j, k1),
        lexes_to(s, j, m, k2),
    ensures
        lexes_to(s, i, m, k1 + k2),
{
    assert(k1 + (k2 + kinds(lex_from(s, m).0)) =~= (k1 + k2) + kinds(lex_from(s, m).0));
}

pub(crate) proof fn lemma_lex_space(s: Seq<char>, i: int)
    requires
        0 <= i < s.len(),
        s[i] == ' ',
    ensures
        lexes_to(s, i, i + 1, seq![]),
{
    lemma_lex_step(s, i);
    assert(step(s, i) == Step::Skip(i + 1));
}

pub(crate) proof fn lemma_lex_punct(s: Seq<char>, i: int, k: TokV)
    requires
        0 <= i < s.len(),
        punct_tok(s[i]) == Some(k),
        s[i] == '=' || s[i] == '>' || s[i] == '<' ==> !next_is_eq(s, i),
    ensures
        lexes_to(s, i, i + 1, seq![k]),
{
    lemma_lex_step(s, i);
    assert(step(s, i) == Step::Emit(k, i + 1));
}

/// Spaces only.
pub open spec fn spaces(w: Seq<char>) -> bool {
    forall|k: int| 0 <= k < w.len() ==> #[trigger] w[k] == ' '
}

pub(crate) proof fn lemma_lex_spaces(s: Seq<char>, i: int, w: Seq<char>)
    requires
        at(s, i, w),
        spaces(w),
    ensures
        lexes_to(s, i, i + w.len(), seq![]),
    decreases w.len(),
{
    if w.len() == 0 {
        lemma_lexes_refl(s, i);
    } else {
        assert(w =~= seq![w[0]] + w.drop_first());
        lemma_at_split(s, i, seq![w[0]], w.drop_first());
        assert(s[i] == seq![w[0]][0]);
        lemma_lex_space(s, i);
        lemma_lex_spaces(s, i + 1, w.drop_first());
        lemma_lexes_trans(s, i, i + 1, i + w.len(), seq![], seq![]);
        assert(Seq::<TokV>::empty() + Seq::<TokV>::empty() =~= Seq::<TokV>::empty());
    }
}

pub(crate) proof fn lemma_lex_word(s: Seq<char>, i: int, w: Seq<char>)
    requires
        at(s, i, w),
        w.len() >= 1,
        is_alpha(w[0]) || w[0] == '_',
        forall|k: int| 0 <= k < w.len() ==> is_ident_char(#[trigger] w[k]),
        end_ok(s, i + w.len()),
    ensures
        lexes_to(s, i, i + w.len(), seq![word_tok(w)]),
{
    let m = i + w.len();
    assert forall|k: int| i + 1 <= k < m implies is_ident_char(#[trigger] s[k]) by {
        assert(s[i + (k - i)] == w[k - i]);
    }
    lemma_ident_end_at(s, i + 1, m);
    assert(s[i + 0] == w[0]);
    assert(s.subrange(i, m) =~= w);
    lemma_lex_step(s, i);
    assert(step(s, i) == Step::Emit(word_tok(w), m));
}

pub(crate) proof fn lemma_lex_num(s: Seq<char>, i: int, l: Seq<char>)
    requires
        lit_wf(l),
        at(s, i, num_text(l)),
        end_ok(s, i + num_text(l).len()),
    ensures
        lexes_to(s, i, i + num_text(l).len(), seq![TokV::Num(num_text(l))]),
{
    let w = num_text(l);
    lemma_num_text_chars(l);
    let m = i + w.len();
    assert forall|k: int| i + 1 <= k < m implies (is_digit(#[trigger] s[k]) || s[k] == '.') by {
        assert(s[i + (k - i)] == w[k - i]);
    }
    assert forall|a: int, b: int| i + 1 <= a < b < m && #[trigger] s[a] == '.' implies #[trigger] s[b] != '.' by {
        assert(s[i + (a - i)] == w[a - i]);
        assert(s[i + (b - i)] == w[b - i]);
    }
    lemma_number_end_at(s, i + 1, 0, m);
    assert(s[i + 0] == w[0]);
    assert(s.subrange(i, m) =~= w);
    lemma_lex_step(s, i);
    assert(step(s, i) == Step::Emit(TokV::Num(w), m));
}


pub(crate) proof fn lemma_lex_pair(s: Seq<char>, i: int, k: TokV)
    requires
        0 <= i,
        i + 1 < s.len(),
        s[i + 1] == '=',
        (s[i] == '=' && k == TokV::Eq) || (s[i] == '!' && k == TokV::Ne) || (s[i] == '>' && k == TokV::Ge)
            || (s[i] == '<' && k == TokV::Le),
    ensures
        lexes_to(s, i, i + 2, seq![k]),
{
    lemma_lex_step(s, i);
    assert(step(s, i) == Step::Emit(k, i + 2));
}

/// The token of an arithmetic operator.
pub open spec fn bin_tok(op: BinOp) -> TokV {
    match op {
        BinOp::Add => TokV::Plus,
        BinOp::Sub => TokV::Minus,
        BinOp::Mul => TokV::Star,
        BinOp::Div => TokV::Slash,
    }
}

/// The token of a comparison operator.
pub open spec fn cmp_tok(op: CmpOp) -> TokV {
    match op {
        CmpOp::Gt => TokV::Gt,
        CmpOp::Lt => TokV::Lt,
        CmpOp::Ge => TokV::Ge,
        CmpOp::Le => TokV::Le,
        CmpOp::Eq => TokV::Eq,
        CmpOp::Ne => TokV::Ne,
    }
}

/// The token kinds of a formatted expression.
pub open spec fn ek(e: ExprV) -> Seq<TokV>
    decreases e,
{
    match e {
        ExprV::Num(l) => seq![TokV::Num(num_text(l))],
        ExprV::Var(n) => seq![TokV::Ident(n)],
        ExprV::Neg(x) => seq![TokV::Minus] + ek(*x),
        ExprV::Paren(x) => seq![TokV::LParen] + ek(*x) + seq![TokV::RParen],
        ExprV::Call { name, args } => seq![TokV::Ident(name), TokV::LParen] + ak(args) + seq![TokV::RParen],
        ExprV::Bin { op, lhs, rhs } => ek(*lhs) + seq![bin_tok(op)] + ek(*rhs),
        ExprV::Cmp { op, lhs, rhs } => ek(*lhs) + seq![cmp_tok(op)] + ek(*rhs),
    }
}

/// The token kinds of formatted call arguments.
pub open spec fn ak(s: Seq<ExprV>) -> Seq<TokV>
    decreases s,
{
    if s.len() == 0 {
        seq![]
    } else if s.len() == 1 {
        ek(s[0])
    } else {
        ak(s.drop_last()) + seq![TokV::Comma] + ek(s.last())
    }
}

pub(crate) proof fn lemma_cmp_parts(e: ExprV)
    requires
        cmp_e(e),
    ensures
        match e {
            ExprV::Num(l) => lit_wf(l),
            ExprV::Var(n) => ident_name(n),
            ExprV::Neg(x) => cmp_e(*x),
            ExprV::Paren(x) => cmp_e(*x),
            ExprV::Call { name, args } => ident_name(name) && forall|k: int|
                0 <= k < args.len() ==> cmp_e(#[trigger] args[k]),
            ExprV::Bin { lhs, rhs, .. } => cmp_e(*lhs) && cmp_e(*rhs),
            ExprV::Cmp { lhs, rhs, .. } => cmp_e(*lhs) && cmp_e(*rhs),
        },
{
    match e {
        ExprV::Cmp { lhs, rhs, .. } => {
            lemma_add_cmp(*rhs);
        },
        ExprV::Bin { op, lhs, rhs } => {
            assert(add_e(e));
            if op == BinOp::Add || op == BinOp::Sub {
                lemma_add_cmp(*lhs);
                lemma_mul_cmp(*rhs);
            } else {
                assert(mul_e(e));
                lemma_mul_cmp(*lhs);
                lemma_un_cmp(*rhs);
            }
        },
        ExprV::Neg(x) => {
            assert(add_e(e));
            assert(mul_e(e));
            assert(un_e(e));
            lemma_un_cmp(*x);
        },
        _ => {
            assert(add_e(e));
            assert(mul_e(e));
            assert(un_e(e));
            assert(prim_e(e));
        },
    }
}

pub(crate) proof fn lex_expr(s: Seq<char>, i: int, e: ExprV)
    requires
        cmp_e(e),
        at(s, i, fmt_expr(e)),
        end_ok(s, i + fmt_expr(e).len()),
    ensures
        lexes_to(s, i, i + fmt_expr(e).len(), ek(e)),
    decreases e, 1nat,
{
    lemma_cmp_parts(e);
    match e {
        ExprV::Num(l) => {
            lemma_lex_num(s, i, l);
        },
        ExprV::Var(n) => {
            lemma_lex_word(s, i, n);
        },
        ExprV::Neg(_) => lex_neg(s, i, e),
        ExprV::Paren(_) => lex_paren(s, i, e),
        ExprV::Call { .. } => lex_call(s, i, e),
        ExprV::Bin { .. } => lex_bin(s, i, e),
        ExprV::Cmp { .. } => lex_cmp(s, i, e),
    }
}

pub(crate) proof fn lex_neg(s: Seq<char>, i: int, e: ExprV)
    requires
        e is Neg,
        cmp_e(e),
        at(s, i, fmt_expr(e)),
        end_ok(s, i + fmt_expr(e).len()),
    ensures
        lexes_to(s, i, i + fmt_expr(e).len(), ek(e)),
    decreases e, 0nat,
{
    lemma_cmp_parts(e);
    let m = i + fmt_expr(e).len();
    if let ExprV::Neg(x) = e {
        reveal_strlit("-");
        let fx = fmt_expr(*x);
        lemma_at_split(s, i, "-"@, fx);
        assert(s[i + 0] == "-"@[0]);
        lemma_lex_punct(s, i, TokV::Minus);
        lex_expr(s, i + 1, *x);
        lemma_lexes_trans(s, i, i + 1, m, seq![TokV::Minus], ek(*x));
    }
}

pub(crate) proof fn lex_paren(s: Seq<char>, i: int, e: ExprV)
    requires
        e is Paren,
        cmp_e(e),
        at(s, i, fmt_expr(e)),
        end_ok(s, i + fmt_expr(e).len()),
    ensures
        lexes_to(s, i, i + fmt_expr(e).len(), ek(e)),
    decreases e, 0nat,
{
    lemma_cmp_parts(e);
    let m = i + fmt_expr(e).len();
    if let ExprV::Paren(x) = e {
        reveal_strlit("(");
        reveal_strlit(")");
        let fx = fmt_expr(*x);
        lemma_at_split(s, i, "("@ + fx, ")"@);
        lemma_at_split(s, i, "("@, fx);
        assert(s[i + 0] == "("@[0]);
        assert(s[m - 1 + 0] == ")"@[0]);
        lemma_lex_punct(s, i, TokV::LParen);
        lex_expr(s, i + 1, *x);
        lemma_lex_punct(s, m - 1, TokV::RParen);
        lemma_lexes_trans(s, i, i + 1, m - 1, seq![TokV::LParen], ek(*x));
        lemma_lexes_trans(s, i, m - 1, m, seq![TokV::LParen] + ek(*x), seq![TokV::RParen]);
    }
}

pub(crate) proof fn lex_call(s: Seq<char>, i: int, e: ExprV)
    requires
        e is Call,
        cmp_e(e),
        at(s, i, fmt_expr(e)),
        end_ok(s, i + fmt_expr(e).len()),
    ensures
        lexes_to(s, i, i + fmt_expr(e).len(), ek(e)),
    decreases e, 0nat,
{
    lemma_cmp_parts(e);
    let m = i + fmt_expr(e).len();
    if let ExprV::Call { name, args } = e {
        reveal_strlit("(");
        reveal_strlit(")");
        let fa = fmt_args(args);
        let j = i + name.len();
        lemma_at_split(s, i, name + "("@ + fa, ")"@);
        lemma_at_split(s, i, name + "("@, fa);
        lemma_at_split(s, i, name, "("@);
        assert(s[j + 0] == "("@[0]);
        assert(s[m - 1 + 0] == ")"@[0]);
        lemma_lex_word(s, i, name);
        lemma_lex_punct(s, j, TokV::LParen);
        lex_args(s, j + 1, args);
        lemma_lex_punct(s, m - 1, TokV::RParen);
        lemma_lexes_trans(s, i, j, j + 1, seq![TokV::Ident(name)], seq![TokV::LParen]);
        assert(seq![TokV::Ident(name)] + seq![TokV::LParen] =~= seq![TokV::Ident(name), TokV::LParen]);
        lemma_lexes_trans(s, i, j + 1, m - 1, seq![TokV::Ident(name), TokV::LParen], ak(args));
        lemma_lexes_trans(s, i, m - 1, m, seq![TokV::Ident(name), TokV::LParen] + ak(args), seq![TokV::RParen]);
    }
}

#[verifier::rlimit(40)]
pub(crate) proof fn lex_bin(s: Seq<char>, i: int, e: ExprV)
    requires
        e is Bin,
        cmp_e(e),
        at(s, i, fmt_expr(e)),
        end_ok(s, i + fmt_expr(e).len()),
    ensures
        lexes_to(s, i, i + fmt_expr(e).len(), ek(e)),
    decreases e, 0nat,
{
    lemma_cmp_parts(e);
    let m = i + fmt_expr(e).len();
    if let ExprV::Bin { op, lhs, rhs } = e {
        reveal_strlit(" ");
        reveal_strlit("+");
        reveal_strlit("-");
        reveal_strlit("*");
        reveal_strlit("/");
        let fl = fmt_expr(*lhs);
        let fr = fmt_expr(*rhs);
        let o = bin_op_text(op);
        let i1 = i + fl.len();
        let i2 = i1 + 1;
        let i3 = i2 + 1;
        let i4 = i3 + 1;
        lemma_at_split(s, i, fl + " "@ + o + " "@, fr);
        lemma_at_split(s, i, fl + " "@ + o, " "@);
        lemma_at_split(s, i, fl + " "@, o);
        lemma_at_split(s, i, fl, " "@);
        assert(s[i1 + 0] == " "@[0]);
        assert(s[i2 + 0] == o[0]);
        assert(s[i3 + 0] == " "@[0]);
        lex_expr(s, i, *lhs);
        lemma_lex_space(s, i1);
        lemma_lex_punct(s, i2, bin_tok(op));
        lemma_lex_space(s, i3);
        lex_expr(s, i4, *rhs);
        lemma_lexes_trans(s, i, i1, i2, ek(*lhs), seq![]);
        lemma_lexes_trans(s, i, i2, i3, ek(*lhs) + seq![], seq![bin_tok(op)]);
        lemma_lexes_trans(s, i, i3, i4, ek(*lhs) + seq![] + seq![bin_tok(op)], seq![]);
        lemma_lexes_trans(s, i, i4, m, ek(*lhs) + seq![] + seq![bin_tok(op)] + seq![], ek(*rhs));
        assert(ek(*lhs) + seq![] + seq![bin_tok(op)] + seq![] + ek(*rhs) =~= ek(e));
    }
}

pub(crate) proof fn lex_cmp(s: Seq<char>, i: int, e: ExprV)
    requires
        e is Cmp,
        cmp_e(e),
        at(s, i, fmt_expr(e)),
        end_ok(s, i + fmt_expr(e).len()),
    ensures
        lexes_to(s, i, i + fmt_expr(e).len(), ek(e)),
    decreases e, 0nat,
{
    lemma_cmp_parts(e);
    let m = i + fmt_expr(e).len();
    if let ExprV::Cmp { op, lhs, rhs } = e {
        reveal_strlit(" ");
        reveal_strlit(">");
        reveal_strlit("<");
        reveal_strlit(">=");
        reveal_strlit("<=");
        reveal_strlit("==");
        reveal_strlit("!=");
        let fl = fmt_expr(*lhs);
        let fr = fmt_expr(*rhs);
        let o = comparison_text(op);
        let i1 = i + fl.len();
        let i2 = i1 + 1;
        let i3 = i2 + o.len();
        let i4 = i3 + 1;
        lemma_at_split(s, i, fl + " "@ + o + " "@, fr);
        lemma_at_split(s, i, fl + " "@ + o, " "@);
        lemma_at_split(s, i, fl + " "@, o);
        lemma_at_split(s, i, fl, " "@);
        assert(s[i1 + 0] == " "@[0]);
        assert(s[i2 + 0] == o[0]);
        assert(s[i3 + 0] == " "@[0]);
        lex_expr(s, i, *lhs);
        lemma_lex_space(s, i1);
        if o.len() == 1 {
            lemma_lex_punct(s, i2, cmp_tok(op));
        } else {
            assert(s[i2 + 1] == o[1]);
            lemma_lex_pair(s, i2, cmp_tok(op));
        }
        lemma_lex_space(s, i3);
        lex_expr(s, i4, *rhs);
        lemma_lexes_trans(s, i, i1, i2, ek(*lhs), seq![]);
        lemma_lexes_trans(s, i, i2, i3, ek(*lhs) + seq![], seq![cmp_tok(op)]);
        lemma_lexes_trans(s, i, i3, i4, ek(*lhs) + seq![] + seq![cmp_tok(op)], seq![]);
        lemma_lexes_trans(s, i, i4, m, ek(*lhs) + seq![] + seq![cmp_tok(op)] + seq![], ek(*rhs));
        assert(ek(*lhs) + seq![] + seq![cmp_tok(op)] + seq![] + ek(*rhs) =~= ek(e));
    }
}

#[verifier::rlimit(100)]
pub(crate) proof fn lex_args(s: Seq<char>, i: int, args: Seq<ExprV>)
    requires
        forall|k: int| 0 <= k < args.len() ==> cmp_e(#[trigger] args[k]),
        at(s, i, fmt_args(args)),
        end_ok(s, i + fmt_args(args).len()),
    ensures
        lexes_to(s, i, i + fmt_args(args).len(), ak(args)),
    decreases args,
{
    let m = i + fmt_args(args).len();
    if args.len() == 0 {
        lemma_lexes_refl(s, i);
    } else if args.len() == 1 {
        lex_expr(s, i, args[0]);
    } else {
        reveal_strlit(", ");
        let dl = args.drop_last();
        let fd = fmt_args(dl);
        let fl = fmt_expr(args.last());
        let j = i + fd.len();
        lemma_at_split(s, i, fd + ", "@, fl);
        lemma_at_split(s, i, fd, ", "@);
        assert(s[j + 0] == ", "@[0]);
        assert(s[j + 1] == ", "@[1]);
        assert forall|k: int| 0 <= k < dl.len() implies cmp_e(#[trigger] dl[k]) by {
            assert(dl[k] == args[k]);
        }
        lex_args(s, i, dl);
        lemma_lex_punct(s, j, TokV::Comma);
        lemma_lex_space(s, j + 1);
        lex_expr(s, j + 2, args.last());
        lemma_lexes_trans(s, i, j, j + 1, ak(dl), seq![TokV::Comma]);
        lemma_lexes_trans(s, i, j + 1, j + 2, ak(dl) + seq![TokV::Comma], seq![]);
        lemma_lexes_trans(s, i, j + 2, m, ak(dl) + seq![TokV::Comma] + seq![], ek(args.last()));
        assert(ak(dl) + seq![TokV::Comma] + seq![] + ek(args.last()) =~= ak(args));
    }
}


/// The token kinds of a formatted statement.
pub open spec fn sk(st: StmtV) -> Seq<TokV>
    decreases st, 1nat,
{
    match st {
        StmtV::Prior { name, dist, .. } => seq![TokV::Let, TokV::Ident(name), TokV::Tilde] + ek(dist),
        StmtV::Let { name, value, .. } => seq![TokV::Let, TokV::Ident(name), TokV::Equals] + ek(value),
        StmtV::Observe { dist, value, .. } => seq![TokV::Observe] + ek(dist) + seq![TokV::Equals] + ek(value),
        StmtV::If { cond, then_body, else_body, .. } => {
            let head = seq![TokV::If] + ek(cond) + bk(then_body);
            if else_body.len() == 0 {
                head
            } else {
                head + seq![TokV::Else] + bk(else_body)
            }
        },
    }
}

/// The token kinds of a formatted block, braces included.
pub open spec fn bk(body: Seq<StmtV>) -> Seq<TokV>
    decreases body, 1nat,
{
    seq![TokV::LBrace, TokV::Newline] + lk(body) + seq![TokV::RBrace]
}

/// The token kinds of formatted statements, one per line.
pub open spec fn lk(s: Seq<StmtV>) -> Seq<TokV>
    decreases s, 0nat,
{
    if s.len() == 0 {
        seq![]
    } else {
        lk(s.drop_last()) + sk(s.last()) + seq![TokV::Newline]
    }
}

/// The token kinds of a formatted program.
pub open spec fn pk(s: Seq<StmtV>) -> Seq<TokV>
    decreases s.len(),
{
    if s.len() == 0 {
        seq![]
    } else if s.len() == 1 {
        sk(s[0])
    } else {
        pk(s.drop_last()) + seq![TokV::Newline] + sk(s.last())
    }
}

/// The text of a block: ` {`, the statements one per line indented by two
/// more spaces, and `}` at the outer indentation.
pub open spec fn blk_text(body: Seq<StmtV>, pad: Seq<char>) -> Seq<char> {
    " {\n"@ + fmt_lines(body, pad + "  "@) + pad + "}"@
}

/// A position where a statement ends.
pub open spec fn stmt_end(s: Seq<char>, m: int) -> bool {
    m == s.len() || s[m] == '\n'
}

pub(crate) proof fn lemma_lex_kw(s: Seq<char>, i: int, w: Seq<char>)
    requires
        at(s, i, w + " "@),
        w.len() >= 1,
        is_alpha(w[0]) || w[0] == '_',
        forall|k: int| 0 <= k < w.len() ==> is_ident_char(#[trigger] w[k]),
    ensures
        lexes_to(s, i, i + w.len() + 1, seq![word_tok(w)]),
{
    reveal_strlit(" ");
    lemma_at_split(s, i, w, " "@);
    assert(s[i + w.len() + 0] == " "@[0]);
    lemma_lex_word(s, i, w);
    lemma_lex_space(s, i + w.len());
    lemma_lexes_trans(s, i, i + w.len(), i + w.len() + 1, seq![word_tok(w)], seq![]);
    assert(seq![word_tok(w)] + Seq::<TokV>::empty() =~= seq![word_tok(w)]);
}

pub(crate) proof fn lemma_lex_spaced(s: Seq<char>, i: int, k: TokV)
    requires
        0 <= i,
        i + 3 <= s.len(),
        s[i] == ' ',
        s[i + 2] == ' ',
        punct_tok(s[i + 1]) == Some(k),
    ensures
        lexes_to(s, i, i + 3, seq![k]),
{
    lemma_lex_space(s, i);
    lemma_lex_punct(s, i + 1, k);
    lemma_lex_space(s, i + 2);
    lemma_lexes_trans(s, i, i + 1, i + 2, seq![], seq![k]);
    lemma_lexes_trans(s, i, i + 2, i + 3, seq![] + seq![k], seq![]);
    assert(Seq::<TokV>::empty() + seq![k] + Seq::<TokV>::empty() =~= seq![k]);
}

pub(crate) proof fn lemma_spaces_more(pad: Seq<char>)
    requires
        spaces(pad),
    ensures
        spaces(pad + "  "@),
{
    reveal_strlit("  ");
    assert forall|k: int| 0 <= k < (pad + "  "@).len() implies #[trigger] (pad + "  "@)[k] == ' ' by {
        if k >= pad.len() {
            assert((pad + "  "@)[k] == "  "@[k - pad.len()]);
        }
    }
}

pub(crate) proof fn lex_stmt(s: Seq<char>, i: int, st: StmtV, pad: Seq<char>)
    requires
        stmt_e(st),
        spaces(pad),
        at(s, i, fmt_stmt(st, pad)),
        stmt_end(s, i + fmt_stmt(st, pad).len()),
    ensures
        lexes_to(s, i, i + fmt_stmt(st, pad).len(), sk(st)),
    decreases st, 2nat,
{
    match st {
        StmtV::If { .. } => lex_if(s, i, st, pad),
        StmtV::Observe { .. } => lex_observe(s, i, st, pad),
        _ => lex_decl(s, i, st, pad),
    }
}

pub(crate) proof fn lex_decl(s: Seq<char>, i: int, st: StmtV, pad: Seq<char>)
    requires
        st is Prior || st is Let,
        stmt_e(st),
        spaces(pad),
        at(s, i, fmt_stmt(st, pad)),
        stmt_end(s, i + fmt_stmt(st, pad).len()),
    ensures
        lexes_to(s, i, i + fmt_stmt(st, pad).len(), sk(st)),
{
    reveal_strlit("let ");
    reveal_strlit("let");
    reveal_strlit(" ");
    reveal_strlit(" ~ ");
    reveal_strlit(" = ");
    assert("let "@ =~= "let"@ + " "@);
    assert(word_tok("let"@) == TokV::Let);
    let (name, x, sym, k) = match st {
        StmtV::Prior { name, dist, .. } => (name, dist, " ~ "@, TokV::Tilde),
        StmtV::Let { name, value, .. } => (name, value, " = "@, TokV::Equals),
        _ => (seq![], ExprV::Num(seq![]), seq![], TokV::Eof),
    };
    assert(fmt_stmt(st, pad) == pad + "let "@ + name + sym + fmt_expr(x));
    assert(sk(st) == seq![TokV::Let, TokV::Ident(name), k] + ek(x));
    let fe = fmt_expr(x);
    let i1 = i + pad.len();
    let i2 = i1 + 4;
    let i3 = i2 + name.len();
    let i4 = i3 + 3;
    let m = i4 + fe.len();
    lemma_at_split(s, i, pad + "let "@ + name + sym, fe);
    lemma_at_split(s, i, pad + "let "@ + name, sym);
    lemma_at_split(s, i, pad + "let "@, name);
    lemma_at_split(s, i, pad, "let "@);
    assert(s[i3 + 0] == sym[0]);
    assert(s[i3 + 1] == sym[1]);
    assert(s[i3 + 2] == sym[2]);
    lemma_lex_spaces(s, i, pad);
    lemma_lex_kw(s, i1, "let"@);
    lemma_lex_word(s, i2, name);
    lemma_lex_spaced(s, i3, k);
    lex_expr(s, i4, x);
    lemma_lexes_trans(s, i, i1, i2, seq![], seq![TokV::Let]);
    lemma_lexes_trans(s, i, i2, i3, seq![] + seq![TokV::Let], seq![TokV::Ident(name)]);
    lemma_lexes_trans(s, i, i3, i4, seq![] + seq![TokV::Let] + seq![TokV::Ident(name)], seq![k]);
    lemma_lexes_trans(s, i, i4, m, seq![] + seq![TokV::Let] + seq![TokV::Ident(name)] + seq![k], ek(x));
    assert(Seq::<TokV>::empty() + seq![TokV::Let] + seq![TokV::Ident(name)] + seq![k] + ek(x) =~= sk(st));
}

pub(crate) proof fn lex_observe(s: Seq<char>, i: int, st: StmtV, pad: Seq<char>)
    requires
        st is Observe,
        stmt_e(st),
        spaces(pad),
        at(s, i, fmt_stmt(st, pad)),
        stmt_end(s, i + fmt_stmt(st, pad).len()),
    ensures
        lexes_to(s, i, i + fmt_stmt(st, pad).len(), sk(st)),
{
    reveal_strlit("observe ");
    reveal_strlit("observe");
    reveal_strlit("let");
    reveal_strlit(" ");
    reveal_strlit(" = ");
    assert("observe "@ =~= "observe"@ + " "@);
    assert(word_tok("observe"@) == TokV::Observe);
    if let StmtV::Observe { dist, value, .. } = st {
        let fd = fmt_expr(dist);
        let fv = fmt_expr(value);
        let i1 = i + pad.len();
        let i2 = i1 + 8;
        let i3 = i2 + fd.len();
        let i4 = i3 + 3;
        let m = i4 + fv.len();
        lemma_at_split(s, i, pad + "observe "@ + fd + " = "@, fv);
        lemma_at_split(s, i, pad + "observe "@ + fd, " = "@);
        lemma_at_split(s, i, pad + "observe "@, fd);
        lemma_at_split(s, i, pad, "observe "@);
        assert(s[i3 + 0] == " = "@[0]);
        assert(s[i3 + 1] == " = "@[1]);
        assert(s[i3 + 2] == " = "@[2]);
        lemma_lex_spaces(s, i, pad);
        lemma_lex_kw(s, i1, "observe"@);
        lex_expr(s, i2, dist);
        lemma_lex_spaced(s, i3, TokV::Equals);
        lex_expr(s, i4, value);
        lemma_lexes_trans(s, i, i1, i2, seq![], seq![TokV::Observe]);
        lemma_lexes_trans(s, i, i2, i3, seq![] + seq![TokV::Observe], ek(dist));
        lemma_lexes_trans(s, i, i3, i4, seq![] + seq![TokV::Observe] + ek(dist), seq![TokV::Equals]);
        lemma_lexes_trans(s, i, i4, m, seq![] + seq![TokV::Observe] + ek(dist) + seq![TokV::Equals], ek(value));
        assert(Seq::<TokV>::empty() + seq![TokV::Observe] + ek(dist) + seq![TokV::Equals] + ek(value) =~= sk(st));
    }
}


pub(crate) proof fn lex_if(s: Seq<char>, i: int, st: StmtV, pad: Seq<char>)
    requires
        st is If,
        stmt_e(st),
        spaces(pad),
        at(s, i, fmt_stmt(st, pad)),
        stmt_end(s, i + fmt_stmt(st, pad).len()),
    ensures
        lexes_to(s, i, i + fmt_stmt(st, pad).len(), sk(st)),
    decreases st, 1nat,
{
    reveal_strlit("if ");
    reveal_strlit("if");
    reveal_strlit("let");
    reveal_strlit("observe");
    reveal_strlit(" ");
    reveal_strlit(" {\n");
    reveal_strlit(" else {\n");
    reveal_strlit(" else");
    reveal_strlit("else");
    reveal_strlit("}");
    assert("if "@ =~= "if"@ + " "@);
    assert(word_tok("if"@) == TokV::If);
    assert("else"@.len() == 4);
    assert("else"@ != "let"@);
    assert("else"@ != "observe"@);
    assert("else"@ != "if"@);
    assert(word_tok("else"@) == TokV::Else);
    if let StmtV::If { cond, then_body, else_body, .. } = st {
        let p2 = pad + "  "@;
        let fc = fmt_expr(cond);
        let bt = blk_text(then_body, pad);
        let head = pad + "if "@ + fc + bt;
        assert(pad + "if "@ + fc + " {\n"@ + fmt_lines(then_body, p2) + pad + "}"@ =~= head);
        let i1 = i + pad.len();
        let i2 = i1 + 3;
        let i3 = i2 + fc.len();
        let i4 = i3 + bt.len();
        let tail = if else_body.len() == 0 { Seq::<char>::empty() } else { " else"@ + blk_text(else_body, pad) };
        if else_body.len() > 0 {
            assert(head + " else {\n"@ + fmt_lines(else_body, p2) + pad + "}"@ =~= head + tail);
        } else {
            assert(head =~= head + tail);
        }
        assert(fmt_stmt(st, pad) == head + tail);
        lemma_at_split(s, i, head, tail);
        lemma_at_split(s, i, pad + "if "@ + fc, bt);
        lemma_at_split(s, i, pad + "if "@, fc);
        lemma_at_split(s, i, pad, "if "@);
        assert(s[i3 + 0] == bt[0]);
        lemma_lex_spaces(s, i, pad);
        lemma_lex_kw(s, i1, "if"@);
        lex_expr(s, i2, cond);
        lex_block(s, i3, then_body, pad);
        lemma_lexes_trans(s, i, i1, i2, seq![], seq![TokV::If]);
        lemma_lexes_trans(s, i, i2, i3, seq![] + seq![TokV::If], ek(cond));
        lemma_lexes_trans(s, i, i3, i4, seq![] + seq![TokV::If] + ek(cond), bk(then_body));
        let hk = seq![TokV::If] + ek(cond) + bk(then_body);
        assert(Seq::<TokV>::empty() + seq![TokV::If] + ek(cond) + bk(then_body) =~= hk);
        if else_body.len() == 0 {
            assert(i4 == i + fmt_stmt(st, pad).len());
        } else {
            let be = blk_text(else_body, pad);
            lemma_at_split(s, i4, " else"@, be);
            assert(s[i4 + 0] == " else"@[0]);
            assert(" else"@.drop_first() =~= "else"@);
            assert forall|k: int| 0 <= k < 4 implies s[i4 + 1 + k] == #[trigger] "else"@[k] by {
                assert(s[i4 + (1 + k)] == " else"@[1 + k]);
            }
            assert(s[i4 + 5 + 0] == be[0]);
            lemma_lex_space(s, i4);
            lemma_lex_word(s, i4 + 1, "else"@);
            lex_block(s, i4 + 5, else_body, pad);
            let m = i4 + 5 + be.len();
            lemma_lexes_trans(s, i, i4, i4 + 1, hk, seq![]);
            lemma_lexes_trans(s, i, i4 + 1, i4 + 5, hk + seq![], seq![TokV::Else]);
            lemma_lexes_trans(s, i, i4 + 5, m, hk + seq![] + seq![TokV::Else], bk(else_body));
            assert(hk + Seq::<TokV>::empty() + seq![TokV::Else] + bk(else_body) =~= sk(st));
        }
    }
}

pub(crate) proof fn lex_block(s: Seq<char>, i: int, body: Seq<StmtV>, pad: Seq<char>)
    requires
        forall|k: int| 0 <= k < body.len() ==> stmt_e(#[trigger] body[k]),
        spaces(pad),
        at(s, i, blk_text(body, pad)),
    ensures
        lexes_to(s, i, i + blk_text(body, pad).len(), bk(body)),
    decreases body, 1nat,
{
    reveal_strlit(" {\n");
    reveal_strlit("}");
    let p2 = pad + "  "@;
    lemma_spaces_more(pad);
    let fl = fmt_lines(body, p2);
    let j = i + 3 + fl.len();
    let m = j + pad.len() + 1;
    lemma_at_split(s, i, " {\n"@ + fl + pad, "}"@);
    lemma_at_split(s, i, " {\n"@ + fl, pad);
    lemma_at_split(s, i, " {\n"@, fl);
    assert(s[i + 0] == " {\n"@[0]);
    assert(s[i + 1] == " {\n"@[1]);
    assert(s[i + 2] == " {\n"@[2]);
    assert(s[j + pad.len() + 0] == "}"@[0]);
    lemma_lex_space(s, i);
    lemma_lex_punct(s, i + 1, TokV::LBrace);
    lemma_lex_punct(s, i + 2, TokV::Newline);
    lex_lines(s, i + 3, body, p2);
    lemma_lex_spaces(s, j, pad);
    lemma_lex_punct(s, j + pad.len(), TokV::RBrace);
    lemma_lexes_trans(s, i, i + 1, i + 2, seq![], seq![TokV::LBrace]);
    lemma_lexes_trans(s, i, i + 2, i + 3, seq![] + seq![TokV::LBrace], seq![TokV::Newline]);
    lemma_lexes_trans(s, i, i + 3, j, seq![] + seq![TokV::LBrace] + seq![TokV::Newline], lk(body));
    lemma_lexes_trans(s, i, j, j + pad.len(), seq![] + seq![TokV::LBrace] + seq![TokV::Newline] + lk(body), seq![]);
    lemma_lexes_trans(s, i, j + pad.len(), m,
        seq![] + seq![TokV::LBrace] + seq![TokV::Newline] + lk(body) + seq![], seq![TokV::RBrace]);
    assert(Seq::<TokV>::empty() + seq![TokV::LBrace] + seq![TokV::Newline] + lk(body) + Seq::<TokV>::empty()
        + seq![TokV::RBrace] =~= bk(body));
}

pub(crate) proof fn lex_lines(s: Seq<char>, i: int, sts: Seq<StmtV>, pad: Seq<char>)
    requires
        forall|k: int| 0 <= k < sts.len() ==> stmt_e(#[trigger] sts[k]),
        spaces(pad),
        at(s, i, fmt_lines(sts, pad)),
    ensures
        lexes_to(s, i, i + fmt_lines(sts, pad).len(), lk(sts)),
    decreases sts, 0nat,
{
    if sts.len() == 0 {
        lemma_lexes_refl(s, i);
    } else {
        reveal_strlit("\n");
        let dl = sts.drop_last();
        let fd = fmt_lines(dl, pad);
        let fs = fmt_stmt(sts.last(), pad);
        let j = i + fd.len();
        let m = j + fs.len();
        lemma_at_split(s, i, fd + fs, "\n"@);
        lemma_at_split(s, i, fd, fs);
        assert(s[m + 0] == "\n"@[0]);
        assert forall|k: int| 0 <= k < dl.len() implies stmt_e(#[trigger] dl[k]) by {
            assert(dl[k] == sts[k]);
        }
        lex_lines(s, i, dl, pad);
        lex_stmt(s, j, sts.last(), pad);
        lemma_lex_punct(s, m, TokV::Newline);
        lemma_lexes_trans(s, i, j, m, lk(dl), sk(sts.last()));
        lemma_lexes_trans(s, i, m, m + 1, lk(dl) + sk(sts.last()), seq![TokV::Newline]);
    }
}

pub(crate) proof fn lex_prog(s: Seq<char>, i: int, sts: Seq<StmtV>)
    requires
        forall|k: int| 0 <= k < sts.len() ==> stmt_e(#[trigger] sts[k]),
        at(s, i, fmt_program(sts)),
        stmt_end(s, i + fmt_program(sts).len()),
    ensures
        lexes_to(s, i, i + fmt_program(sts).len(), pk(sts)),
    decreases sts.len(),
{
    assert(spaces(Seq::<char>::empty()));
    if sts.len() == 0 {
        lemma_lexes_refl(s, i);
    } else if sts.len() == 1 {
        lex_stmt(s, i, sts[0], seq![]);
    } else {
        reveal_strlit("\n");
        let dl = sts.drop_last();
        let fd = fmt_program(dl);
        let fs = fmt_stmt(sts.last(), seq![]);
        let j = i + fd.len();
        let m = j + 1 + fs.len();
        lemma_at_split(s, i, fd + "\n"@, fs);
        lemma_at_split(s, i, fd, "\n"@);
        assert(s[j + 0] == "\n"@[0]);
        assert forall|k: int| 0 <= k < dl.len() implies stmt_e(#[trigger] dl[k]) by {
            assert(dl[k] == sts[k]);
        }
        lex_prog(s, i, dl);
        lemma_lex_punct(s, j, TokV::Newline);
        lex_stmt(s, j + 1, sts.last(), seq![]);
        lemma_lexes_trans(s, i, j, j + 1, pk(dl), seq![TokV::Newline]);
        lemma_lexes_trans(s, i, j + 1, m, pk(dl) + seq![TokV::Newline], sk(sts.last()));
    }
}

/// The lexer reads a formatted program back as the tokens `pk` followed by
/// the end of input, without a diagnostic.
pub(crate) proof fn lemma_lex_formatted(sts: Seq<StmtV>)
    requires
        forall|k: int| 0 <= k < sts.len() ==> stmt_e(#[trigger] sts[k]),
    ensures
        kinds(lex_spec(fmt_program(sts)).0) == pk(sts) + seq![TokV::Eof],
        lex_spec(fmt_program(sts)).1 == Seq::<DiagV>::empty(),
{
    let s = fmt_program(sts);
    assert forall|k: int| 0 <= k < s.len() implies s[0 + k] == #[trigger] s[k] by {}
    lex_prog(s, 0, sts);
    let e = lex_from(s, s.len() as int);
    assert(kinds(e.0) =~= seq![TokV::Eof]);
}


} // verus!
