//! The shape of what the parser yields: every token the lexer emits is well
//! formed (names are identifiers, literals are digits with at most one
//! point), so every parsed expression is shaped by the parser's precedence
//! levels and every name in a parsed program is an identifier.
use vstd::prelude::*;
use crate::ast::{BinOp, ExprV, StmtV};
use crate::diagnostics::DiagV;
use crate::lexer::{
    TokV, TokenV, Step, step, step_next, lex_from, lex_spec, is_digit, is_alpha, is_ident_char, number_end,
    ident_end, word_tok, lemma_step_advances,
};
use crate::parser::{
    tk, adv, in_range, skip_nl, comparison_op_of, add_op_of, mul_op_of, after_stmt, stmt_items, sp_expr,
    sp_comparison, sp_comparison_rest, sp_add, sp_add_rest, sp_mul, sp_mul_rest, sp_unary, sp_primary,
    sp_args, sp_args_rest, sp_stmt, sp_let, sp_observe, sp_if, sp_block, sp_block_items, sp_program_items,
    parse_spec,
};
use crate::num::{lit_wf, int_part, frac_part, lemma_dot_pos};

verus! {

// ---------------------------------------------------------------------------
// Well-formed tokens
// ---------------------------------------------------------------------------

/// A name the lexer reads as one identifier token.
pub open spec fn ident_name(n: Seq<char>) -> bool {
    &&& n.len() >= 1
    &&& (is_alpha(n[0]) || n[0] == '_')
    &&& forall|k: int| 0 <= k < n.len() ==> is_ident_char(#[trigger] n[k])
    &&& word_tok(n) == TokV::Ident(n)
}

/// Identifier tokens carry identifiers and number tokens well-formed literals.
pub open spec fn tok_ok(k: TokV) -> bool {
    match k {
        TokV::Ident(n) => ident_name(n),
        TokV::Num(l) => lit_wf(l),
        _ => true,
    }
}

/// Every token of a stream is well formed.
pub open spec fn toks_ok(t: Seq<TokenV>) -> bool {
    forall|k: int| 0 <= k < t.len() ==> tok_ok(#[trigger] t[k].tok)
}

/// Characters a number literal is made of.
pub open spec fn num_chars(s: Seq<char>, i: int, j: int) -> bool {
    &&& forall|k: int| i <= k < j ==> (is_digit(#[trigger] s[k]) || s[k] == '.')
    &&& forall|a: int, b: int| i <= a < b < j && #[trigger] s[a] == '.' ==> #[trigger] s[b] != '.'
}

pub(crate) proof fn lemma_number_chars(s: Seq<char>, j: int, dots: int)
    requires
        0 <= j <= s.len(),
    ensures
        j <= number_end(s, j, dots) <= s.len(),
        num_chars(s, j, number_end(s, j, dots)),
        dots != 0 ==> forall|k: int| j <= k < number_end(s, j, dots) ==> #[trigger] s[k] != '.',
    decreases s.len() - j,
{
    if j < s.len() {
        if is_digit(s[j]) {
            lemma_number_chars(s, j + 1, dots);
        } else if s[j] == '.' && dots == 0 {
            lemma_number_chars(s, j + 1, 1);
        }
    }
}

pub(crate) proof fn lemma_number_end_at(s: Seq<char>, j: int, dots: int, m: int)
    requires
        0 <= j <= m <= s.len(),
        num_chars(s, j, m),
        dots != 0 ==> forall|k: int| j <= k < m ==> #[trigger] s[k] != '.',
        m == s.len() || (!is_digit(s[m]) && s[m] != '.'),
    ensures
        number_end(s, j, dots) == m,
    decreases m - j,
{
    if j < m {
        if is_digit(s[j]) {
            lemma_number_end_at(s, j + 1, dots, m);
        } else {
            assert(s[j] == '.');
            assert forall|k: int| j + 1 <= k < m implies #[trigger] s[k] != '.' by {
                assert(s[j] == '.');
            }
            lemma_number_end_at(s, j + 1, 1, m);
        }
    }
}

pub(crate) proof fn lemma_ident_chars(s: Seq<char>, j: int)
    requires
        0 <= j <= s.len(),
    ensures
        j <= ident_end(s, j) <= s.len(),
        forall|k: int| j <= k < ident_end(s, j) ==> is_ident_char(#[trigger] s[k]),
    decreases s.len() - j,
{
    if j < s.len() && is_ident_char(s[j]) {
        lemma_ident_chars(s, j + 1);
    }
}

pub(crate) proof fn lemma_ident_end_at(s: Seq<char>, j: int, m: int)
    requires
        0 <= j <= m <= s.len(),
        forall|k: int| j <= k < m ==> is_ident_char(#[trigger] s[k]),
        m == s.len() || !is_ident_char(s[m]),
    ensures
        ident_end(s, j) == m,
    decreases m - j,
{
    if j < m {
        lemma_ident_end_at(s, j + 1, m);
    }
}

/// Digits with at most one point, at least one of them a digit, form a
/// well-formed literal.
pub(crate) proof fn lemma_lit_wf(w: Seq<char>, d: int)
    requires
        num_chars(w, 0, w.len() as int),
        0 <= d < w.len(),
        is_digit(w[d]),
    ensures
        lit_wf(w),
{
    lemma_dot_pos(w);
    let p = crate::num::dot_pos(w);
    let ip = int_part(w);
    let fp = frac_part(w);
    assert forall|k: int| 0 <= k < ip.len() implies '0' <= #[trigger] ip[k] <= '9' by {
        assert(ip[k] == w[k]);
    }
    if p < w.len() {
        assert forall|k: int| 0 <= k < fp.len() implies '0' <= #[trigger] fp[k] <= '9' by {
            assert(fp[k] == w[p + 1 + k]);
            assert(w[p] == '.');
        }
        if d < p {
            assert(ip[d] == w[d]);
        } else {
            assert(d != p);
            assert(fp[d - p - 1] == w[d]);
        }
    } else {
        assert(ip[d] == w[d]);
    }
}

/// Each token of one lexing step is well formed.
pub(crate) proof fn lemma_step_ok(s: Seq<char>, i: int)
    requires
        0 <= i < s.len(),
    ensures
        step(s, i) matches Step::Emit(k, _) ==> tok_ok(k),
{
    let c = s[i];
    if let Step::Emit(TokV::Num(w), e) = step(s, i) {
        let d0: int = if c == '.' { 1 } else { 0 };
        lemma_number_chars(s, i + 1, d0);
        let j = number_end(s, i + 1, d0);
        assert(w == s.subrange(i, j));
        assert(is_digit(c) || c == '.');
        assert forall|k: int| 0 <= k < w.len() implies (is_digit(#[trigger] w[k]) || w[k] == '.') by {
            assert(w[k] == s[i + k]);
        }
        assert forall|a: int, b: int| 0 <= a < b < w.len() && #[trigger] w[a] == '.' implies #[trigger] w[b] != '.' by {
            assert(w[a] == s[i + a]);
            assert(w[b] == s[i + b]);
        }
        if is_digit(c) {
            lemma_lit_wf(w, 0);
        } else {
            assert(is_digit(s[i + 1]));
            assert(number_end(s, i + 1, 1) == number_end(s, i + 2, 1));
            lemma_number_chars(s, i + 2, 1);
            assert(w[1] == s[i + 1]);
            lemma_lit_wf(w, 1);
        }
    }
    if let Step::Emit(TokV::Ident(w), e) = step(s, i) {
        lemma_ident_chars(s, i + 1);
        let j = ident_end(s, i + 1);
        assert(is_alpha(c) || c == '_');
        let w2 = s.subrange(i, j);
        assert(word_tok(w2) == TokV::Ident(w));
        assert(w == w2);
        assert forall|k: int| 0 <= k < w.len() implies is_ident_char(#[trigger] w[k]) by {
            assert(w[k] == s[i + k]);
        }
    }
}

pub(crate) proof fn lemma_lex_from_ok(s: Seq<char>, i: int)
    requires
        0 <= i <= s.len(),
    ensures
        toks_ok(lex_from(s, i).0),
    decreases s.len() - i,
{
    if i < s.len() {
        lemma_step_advances(s, i);
        lemma_step_ok(s, i);
        let e = step_next(step(s, i));
        lemma_lex_from_ok(s, e);
        let rest = lex_from(s, e).0;
        let t = lex_from(s, i).0;
        if let Step::Emit(k, end) = step(s, i) {
            assert forall|m: int| 0 <= m < t.len() implies tok_ok(#[trigger] t[m].tok) by {
                if m > 0 {
                    assert(t[m] == rest[m - 1]);
                }
            }
        }
    }
}

/// Every token the lexer emits is well formed.
pub proof fn lemma_lex_ok(s: Seq<char>)
    ensures
        toks_ok(lex_spec(s).0),
{
    lemma_lex_from_ok(s, 0);
}


// ---------------------------------------------------------------------------
// Expressions and statements shaped by the parser's precedence levels
// ---------------------------------------------------------------------------

/// `cmp := cmp cmp_op add | add`
pub open spec fn cmp_e(e: ExprV) -> bool
    decreases e, 4nat,
{
    match e {
        ExprV::Cmp { op, lhs, rhs } => cmp_e(*lhs) && add_e(*rhs),
        _ => add_e(e),
    }
}

/// `add := add ('+' | '-') mul | mul`
pub open spec fn add_e(e: ExprV) -> bool
    decreases e, 3nat,
{
    match e {
        ExprV::Bin { op, lhs, rhs } => {
            if op == BinOp::Add || op == BinOp::Sub {
                add_e(*lhs) && mul_e(*rhs)
            } else {
                mul_e(e)
            }
        },
        _ => mul_e(e),
    }
}

/// `mul := mul ('*' | '/') unary | unary`
pub open spec fn mul_e(e: ExprV) -> bool
    decreases e, 2nat,
{
    match e {
        ExprV::Bin { op, lhs, rhs } => {
            if op == BinOp::Mul || op == BinOp::Div {
                mul_e(*lhs) && un_e(*rhs)
            } else {
                false
            }
        },
        _ => un_e(e),
    }
}

/// `unary := '-' unary | primary`
pub open spec fn un_e(e: ExprV) -> bool
    decreases e, 1nat,
{
    match e {
        ExprV::Neg(x) => un_e(*x),
        _ => prim_e(e),
    }
}

/// `primary := num | ident | ident '(' args ')' | '(' cmp ')'`, with
/// well-formed literals and identifiers.
pub open spec fn prim_e(e: ExprV) -> bool
    decreases e, 0nat,
{
    match e {
        ExprV::Num(l) => lit_wf(l),
        ExprV::Var(n) => ident_name(n),
        ExprV::Call { name, args } => ident_name(name) && forall|k: int| 0 <= k < args.len() ==> cmp_e(#[trigger] args[k]),
        ExprV::Paren(x) => cmp_e(*x),
        _ => false,
    }
}

/// A statement whose names are identifiers and whose expressions are shaped.
pub open spec fn stmt_e(st: StmtV) -> bool
    decreases st,
{
    match st {
        StmtV::Prior { name, dist, .. } => ident_name(name) && cmp_e(dist),
        StmtV::Let { name, value, .. } => ident_name(name) && cmp_e(value),
        StmtV::Observe { dist, value, .. } => cmp_e(dist) && cmp_e(value),
        StmtV::If { cond, then_body, else_body, .. } => {
            &&& cmp_e(cond)
            &&& forall|k: int| 0 <= k < then_body.len() ==> stmt_e(#[trigger] then_body[k])
            &&& forall|k: int| 0 <= k < else_body.len() ==> stmt_e(#[trigger] else_body[k])
        },
    }
}


pub(crate) proof fn lemma_un_cmp(e: ExprV)
    requires
        un_e(e),
    ensures
        mul_e(e),
        add_e(e),
        cmp_e(e),
{
    match e {
        ExprV::Cmp { .. } => {
            assert(un_e(e) == prim_e(e));
        },
        ExprV::Bin { .. } => {
            assert(un_e(e) == prim_e(e));
        },
        _ => {
            assert(mul_e(e) == un_e(e));
            assert(add_e(e) == mul_e(e));
            assert(cmp_e(e) == add_e(e));
        },
    }
}

pub(crate) proof fn lemma_mul_cmp(e: ExprV)
    requires
        mul_e(e),
    ensures
        add_e(e),
        cmp_e(e),
{
    match e {
        ExprV::Cmp { .. } => {
            assert(mul_e(e) == un_e(e));
            assert(un_e(e) == prim_e(e));
        },
        ExprV::Bin { op, .. } => {
            assert(add_e(e));
            assert(cmp_e(e) == add_e(e));
        },
        _ => {
            assert(add_e(e) == mul_e(e));
            assert(cmp_e(e) == add_e(e));
        },
    }
}

pub(crate) proof fn lemma_add_cmp(e: ExprV)
    requires
        add_e(e),
    ensures
        cmp_e(e),
{
    match e {
        ExprV::Cmp { .. } => {
            assert(add_e(e) == mul_e(e));
            assert(mul_e(e) == un_e(e));
            assert(un_e(e) == prim_e(e));
        },
        _ => {
            assert(cmp_e(e) == add_e(e));
        },
    }
}

pub(crate) proof fn lemma_zero_lit()
    ensures
        lit_wf("0.0"@),
        prim_e(ExprV::Num("0.0"@)),
        un_e(ExprV::Num("0.0"@)),
        mul_e(ExprV::Num("0.0"@)),
        add_e(ExprV::Num("0.0"@)),
        cmp_e(ExprV::Num("0.0"@)),
{
    let w = "0.0"@;
    reveal_strlit("0.0");
    assert(w.len() == 3 && w[0] == '0' && w[1] == '.' && w[2] == '0');
    lemma_lit_wf(w, 0);
    assert(prim_e(ExprV::Num(w)));
    assert(un_e(ExprV::Num(w)));
    lemma_un_cmp(ExprV::Num(w));
}

pub(crate) proof fn sh_expr(t: Seq<TokenV>, p: int)
    requires
        toks_ok(t),
    ensures
        cmp_e(sp_expr(t, p).v),
    decreases t.len() - p, 9nat,
{
    lemma_zero_lit();
    if in_range(t, p) {
        sh_cmp(t, p);
    }
}

pub(crate) proof fn sh_cmp(t: Seq<TokenV>, p: int)
    requires
        toks_ok(t),
    ensures
        cmp_e(sp_comparison(t, p).v),
    decreases t.len() - p, 8nat,
{
    lemma_zero_lit();
    if in_range(t, p) {
        sh_add(t, p);
        let l = sp_add(t, p);
        if p <= l.pos < t.len() {
            lemma_add_cmp(l.v);
            sh_cmp_rest(t, l.pos, l.v);
        }
    }
}

pub(crate) proof fn sh_cmp_rest(t: Seq<TokenV>, p: int, lhs: ExprV)
    requires
        toks_ok(t),
        cmp_e(lhs),
    ensures
        cmp_e(sp_comparison_rest(t, p, lhs).v),
    decreases t.len() - p, 7nat,
{
    lemma_zero_lit();
    if in_range(t, p) {
        if let Some(op) = comparison_op_of(tk(t, p)) {
            let q = adv(t, p);
            if q > p {
                sh_add(t, q);
                let r = sp_add(t, q);
                if q <= r.pos < t.len() {
                    sh_cmp_rest(t, r.pos, ExprV::Cmp { op, lhs: Box::new(lhs), rhs: Box::new(r.v) });
                }
            }
        }
    }
}

pub(crate) proof fn sh_add(t: Seq<TokenV>, p: int)
    requires
        toks_ok(t),
    ensures
        add_e(sp_add(t, p).v),
    decreases t.len() - p, 6nat,
{
    lemma_zero_lit();
    if in_range(t, p) {
        sh_mul(t, p);
        let l = sp_mul(t, p);
        if p <= l.pos < t.len() {
            lemma_mul_cmp(l.v);
            sh_add_rest(t, l.pos, l.v);
        }
    }
}

pub(crate) proof fn sh_add_rest(t: Seq<TokenV>, p: int, lhs: ExprV)
    requires
        toks_ok(t),
        add_e(lhs),
    ensures
        add_e(sp_add_rest(t, p, lhs).v),
    decreases t.len() - p, 5nat,
{
    lemma_zero_lit();
    if in_range(t, p) {
        if let Some(op) = add_op_of(tk(t, p)) {
            let q = adv(t, p);
            if q > p {
                sh_mul(t, q);
                let r = sp_mul(t, q);
                if q <= r.pos < t.len() {
                    sh_add_rest(t, r.pos, ExprV::Bin { op, lhs: Box::new(lhs), rhs: Box::new(r.v) });
                }
            }
        }
    }
}

pub(crate) proof fn sh_mul(t: Seq<TokenV>, p: int)
    requires
        toks_ok(t),
    ensures
        mul_e(sp_mul(t, p).v),
    decreases t.len() - p, 4nat,
{
    lemma_zero_lit();
    if in_range(t, p) {
        sh_unary(t, p);
        let l = sp_unary(t, p);
        if p <= l.pos < t.len() {
            lemma_un_cmp(l.v);
            sh_mul_rest(t, l.pos, l.v);
        }
    }
}

pub(crate) proof fn sh_mul_rest(t: Seq<TokenV>, p: int, lhs: ExprV)
    requires
        toks_ok(t),
        mul_e(lhs),
    ensures
        mul_e(sp_mul_rest(t, p, lhs).v),
    decreases t.len() - p, 3nat,
{
    lemma_zero_lit();
    if in_range(t, p) {
        if let Some(op) = mul_op_of(tk(t, p)) {
            let q = adv(t, p);
            if q > p {
                sh_unary(t, q);
                let r = sp_unary(t, q);
                if q <= r.pos < t.len() {
                    sh_mul_rest(t, r.pos, ExprV::Bin { op, lhs: Box::new(lhs), rhs: Box::new(r.v) });
                }
            }
        }
    }
}

pub(crate) proof fn sh_unary(t: Seq<TokenV>, p: int)
    requires
        toks_ok(t),
    ensures
        un_e(sp_unary(t, p).v),
    decreases t.len() - p, 2nat,
{
    lemma_zero_lit();
    if in_range(t, p) {
        if tk(t, p) is Minus {
            let q = adv(t, p);
            if q > p {
                sh_unary(t, q);
            }
        } else {
            sh_primary(t, p);
        }
    }
}

pub(crate) proof fn sh_primary(t: Seq<TokenV>, p: int)
    requires
        toks_ok(t),
    ensures
        prim_e(sp_primary(t, p).v),
    decreases t.len() - p, 1nat,
{
    lemma_zero_lit();
    if in_range(t, p) {
        assert(tok_ok(t[p].tok));
        match tk(t, p) {
            TokV::Ident(n) => {
                let q = adv(t, p);
                if tk(t, q) is LParen {
                    let q3 = skip_nl(t, adv(t, q));
                    if p < q3 < t.len() {
                        sh_args(t, q3);
                        let a = sp_args(t, q3);
                        if q3 <= a.pos < t.len() {
                            assert(sp_primary(t, p).v == ExprV::Call { name: n, args: a.v });
                        }
                    }
                } else {
                    assert(sp_primary(t, p).v == ExprV::Var(n));
                }
            },
            TokV::LParen => {
                let q = adv(t, p);
                if q > p {
                    sh_expr(t, q);
                }
            },
            TokV::Num(l) => {
                assert(sp_primary(t, p).v == ExprV::Num(l));
            },
            _ => {},
        }
    }
}

pub(crate) proof fn sh_args(t: Seq<TokenV>, p: int)
    requires
        toks_ok(t),
    ensures
        forall|k: int| 0 <= k < sp_args(t, p).v.len() ==> cmp_e(#[trigger] sp_args(t, p).v[k]),
    decreases t.len() - p, 10nat,
{
    if in_range(t, p) && !(tk(t, p) is RParen) {
        sh_expr(t, p);
        let first = sp_expr(t, p);
        if p <= first.pos < t.len() {
            sh_args_rest(t, first.pos, seq![first.v]);
            assert(sp_args(t, p).v == sp_args_rest(t, first.pos, seq![first.v]).v);
        }
    }
}

pub(crate) proof fn sh_args_rest(t: Seq<TokenV>, p: int, acc: Seq<ExprV>)
    requires
        toks_ok(t),
        forall|k: int| 0 <= k < acc.len() ==> cmp_e(#[trigger] acc[k]),
    ensures
        forall|k: int| 0 <= k < sp_args_rest(t, p, acc).v.len() ==> cmp_e(#[trigger] sp_args_rest(t, p, acc).v[k]),
    decreases t.len() - p, 0nat,
{
    if in_range(t, p) && tk(t, p) is Comma {
        let q2 = skip_nl(t, adv(t, p));
        if p < q2 < t.len() {
            sh_expr(t, q2);
            let a = sp_expr(t, q2);
            if q2 <= a.pos < t.len() {
                let acc2 = acc.push(a.v);
                assert forall|k: int| 0 <= k < acc2.len() implies cmp_e(#[trigger] acc2[k]) by {
                    if k < acc.len() {
                        assert(acc2[k] == acc[k]);
                    }
                }
                sh_args_rest(t, a.pos, acc2);
                assert(sp_args_rest(t, p, acc).v == sp_args_rest(t, a.pos, acc2).v);
            } else {
                assert(sp_args_rest(t, p, acc).v == acc);
            }
        } else {
            assert(sp_args_rest(t, p, acc).v == acc);
        }
    } else {
        assert(sp_args_rest(t, p, acc).v == acc);
    }
}


/// Statements recovered from one statement attempt and the rest.
pub(crate) proof fn lemma_items_e(a: Option<StmtV>, rest: Seq<StmtV>)
    requires
        a matches Some(x) ==> stmt_e(x),
        forall|k: int| 0 <= k < rest.len() ==> stmt_e(#[trigger] rest[k]),
    ensures
        forall|k: int| 0 <= k < (stmt_items(a) + rest).len() ==> stmt_e(#[trigger] (stmt_items(a) + rest)[k]),
{
    let v = stmt_items(a) + rest;
    assert forall|k: int| 0 <= k < v.len() implies stmt_e(#[trigger] v[k]) by {
        if k >= stmt_items(a).len() {
            assert(v[k] == rest[k - stmt_items(a).len()]);
        }
    }
}

pub(crate) proof fn sh_stmt(t: Seq<TokenV>, p: int)
    requires
        toks_ok(t),
    ensures
        sp_stmt(t, p).v matches Some(x) ==> stmt_e(x),
    decreases t.len() - p, 3nat,
{
    if in_range(t, p) {
        match tk(t, p) {
            TokV::Let => sh_let(t, p),
            TokV::Observe => sh_observe(t, p),
            TokV::If => sh_if(t, p),
            _ => {},
        }
    }
}

pub(crate) proof fn sh_let(t: Seq<TokenV>, p: int)
    requires
        toks_ok(t),
    ensures
        sp_let(t, p).v matches Some(x) ==> stmt_e(x),
    decreases t.len() - p, 2nat,
{
    if in_range(t, p) {
        let q = adv(t, p);
        assert(tok_ok(t[q].tok));
        if let TokV::Ident(n) = tk(t, q) {
            let q2 = adv(t, q);
            sh_expr(t, adv(t, q2));
        }
    }
}

pub(crate) proof fn sh_observe(t: Seq<TokenV>, p: int)
    requires
        toks_ok(t),
    ensures
        sp_observe(t, p).v matches Some(x) ==> stmt_e(x),
    decreases t.len() - p, 2nat,
{
    if in_range(t, p) {
        sh_expr(t, adv(t, p));
        let d = sp_expr(t, adv(t, p));
        if in_range(t, d.pos) && tk(t, d.pos) is Equals {
            sh_expr(t, adv(t, d.pos));
        }
    }
}

pub(crate) proof fn sh_if(t: Seq<TokenV>, p: int)
    requires
        toks_ok(t),
    ensures
        sp_if(t, p).v matches Some(x) ==> stmt_e(x),
    decreases t.len() - p, 2nat,
{
    if in_range(t, p) {
        sh_expr(t, adv(t, p));
        let c = sp_expr(t, adv(t, p));
        if p < c.pos < t.len() && tk(t, c.pos) is LBrace {
            let q2 = adv(t, c.pos);
            sh_block(t, q2);
            let tb = sp_block(t, q2);
            if p < q2 <= tb.pos < t.len() {
                let ev: Seq<StmtV> = if tk(t, tb.pos) is Else {
                    let q3 = adv(t, tb.pos);
                    if in_range(t, q3) && q3 > p && tk(t, q3) is LBrace {
                        let q4 = adv(t, q3);
                        if q4 > p {
                            sh_block(t, q4);
                            sp_block(t, q4).v
                        } else {
                            seq![]
                        }
                    } else {
                        seq![]
                    }
                } else {
                    seq![]
                };
                assert(sp_if(t, p).v matches Some(StmtV::If { cond, then_body, else_body, .. })
                    && cond == c.v && then_body == tb.v && else_body == ev);
            }
        }
    }
}

pub(crate) proof fn sh_block(t: Seq<TokenV>, p: int)
    requires
        toks_ok(t),
    ensures
        forall|k: int| 0 <= k < sp_block(t, p).v.len() ==> stmt_e(#[trigger] sp_block(t, p).v[k]),
    decreases t.len() - p, 5nat,
{
    let q = skip_nl(t, p);
    if in_range(t, p) && p <= q < t.len() {
        sh_block_items(t, q);
        if in_range(t, sp_block_items(t, q).pos) {
            assert(sp_block(t, p).v == sp_block_items(t, q).v);
        } else {
            assert(sp_block(t, p).v.len() == 0);
        }
    }
}

pub(crate) proof fn sh_block_items(t: Seq<TokenV>, p: int)
    requires
        toks_ok(t),
    ensures
        forall|k: int| 0 <= k < sp_block_items(t, p).v.len() ==> stmt_e(#[trigger] sp_block_items(t, p).v[k]),
    decreases t.len() - p, 4nat,
{
    if in_range(t, p) && !(tk(t, p) is RBrace) && !(tk(t, p) is Eof) {
        sh_stmt(t, p);
        let s = sp_stmt(t, p);
        if p <= s.pos < t.len() {
            let q2 = after_stmt(t, s);
            if p < q2 < t.len() {
                sh_block_items(t, q2);
                lemma_items_e(s.v, sp_block_items(t, q2).v);
            }
        }
    }
}

pub(crate) proof fn sh_program_items(t: Seq<TokenV>, p: int)
    requires
        toks_ok(t),
    ensures
        forall|k: int| 0 <= k < sp_program_items(t, p).v.len() ==> stmt_e(#[trigger] sp_program_items(t, p).v[k]),
    decreases t.len() - p,
{
    if in_range(t, p) && !(tk(t, p) is Eof) {
        sh_stmt(t, p);
        let s = sp_stmt(t, p);
        let q2 = after_stmt(t, s);
        let q3 = if q2 <= p { skip_nl(t, adv(t, p)) } else { q2 };
        if p < q3 < t.len() {
            sh_program_items(t, q3);
            lemma_items_e(s.v, sp_program_items(t, q3).v);
        } else {
            lemma_items_e(s.v, seq![]);
            assert(stmt_items(s.v) + Seq::<StmtV>::empty() =~= stmt_items(s.v));
        }
    }
}

/// Every statement the parser yields has identifier names and expressions
/// shaped by the precedence levels.
pub proof fn lemma_parse_shaped(src: Seq<char>)
    ensures
        forall|k: int| 0 <= k < parse_spec(src).0.len() ==> stmt_e(#[trigger] parse_spec(src).0[k]),
{
    lemma_lex_ok(src);
    let t = lex_spec(src).0;
    sh_program_items(t, skip_nl(t, 0));
}


} // verus!
