//! Recursive-descent, error-tolerant parser for the Augur language.
//!
//! The parser never fails on malformed input: it records diagnostics and
//! resynchronises to the next statement, so a partially broken program still
//! yields a usable (partial) AST. Its behaviour is specified by the `sp_*`
//! functions below, which read a token stream position by position.
use vstd::prelude::*;
use crate::ast::{Span, BinOp, CmpOp, Expr, ExprV, exprs_v, Stmt, StmtV, stmts_v, Program};
use crate::diagnostics::{DiagV, Diagnostic, Severity, error_v};
use crate::lexer::{Tok, TokV, Token, TokenV, tokens_view, diags_view, lex, lex_spec, tokens_well_formed};
use crate::num::{num_text, push_num_text};
use crate::util::push_char;

verus! {

// ---------------------------------------------------------------------------
// Specification
// ---------------------------------------------------------------------------

/// A parse result: a value, the position after it, and the diagnostics
/// raised while parsing it.
pub struct PR<T> {
    pub v: T,
    pub pos: int,
    pub d: Seq<DiagV>,
}

/// A token stream the parser can work on: it ends with `Eof`.
pub open spec fn wf_toks(t: Seq<TokenV>) -> bool {
    t.len() >= 1 && t.last().tok is Eof
}

/// The position after consuming the token at `p` (the final token is never
/// consumed).
pub open spec fn adv(t: Seq<TokenV>, p: int) -> int {
    if p < t.len() - 1 { p + 1 } else { p }
}

/// The token kind at `p`.
pub open spec fn tk(t: Seq<TokenV>, p: int) -> TokV {
    t[p].tok
}

/// The `Debug` rendering of a token.
pub open spec fn tok_debug(k: TokV) -> Seq<char> {
    match k {
        TokV::Let => "Let"@,
        TokV::Observe => "Observe"@,
        TokV::If => "If"@,
        TokV::Else => "Else"@,
        TokV::Tilde => "Tilde"@,
        TokV::Equals => "Equals"@,
        TokV::Eq => "Eq"@,
        TokV::Ne => "Ne"@,
        TokV::Gt => "Gt"@,
        TokV::Lt => "Lt"@,
        TokV::Ge => "Ge"@,
        TokV::Le => "Le"@,
        TokV::Plus => "Plus"@,
        TokV::Minus => "Minus"@,
        TokV::Star => "Star"@,
        TokV::Slash => "Slash"@,
        TokV::LParen => "LParen"@,
        TokV::RParen => "RParen"@,
        TokV::LBrace => "LBrace"@,
        TokV::RBrace => "RBrace"@,
        TokV::Comma => "Comma"@,
        TokV::Num(l) => "Num("@ + num_text(l) + ")"@,
        TokV::Ident(n) => "Ident(\""@ + n + "\")"@,
        TokV::Newline => "Newline"@,
        TokV::Eof => "Eof"@,
    }
}

/// Message for a token that cannot start a statement.
pub open spec fn stmt_msg(k: TokV) -> Seq<char> {
    "unexpected token `"@ + tok_debug(k) + "` at statement position"@
}

/// Message for a token that cannot start an expression.
pub open spec fn expr_msg(k: TokV) -> Seq<char> {
    "unexpected token `"@ + tok_debug(k) + "` in expression"@
}

/// Message for a missing token.
pub open spec fn expected_msg(k: TokV) -> Seq<char> {
    "expected `"@ + tok_debug(k) + "`"@
}

/// Consume the token `k` at `p`, or report that it is missing.
pub open spec fn expect(t: Seq<TokenV>, p: int, k: TokV) -> (int, Seq<DiagV>) {
    if tk(t, p) == k {
        (adv(t, p), seq![])
    } else {
        (p, seq![error_v(expected_msg(k), t[p].span)])
    }
}

/// Skip newline tokens.
pub open spec fn skip_nl(t: Seq<TokenV>, p: int) -> int
    decreases t.len() - p,
{
    if 0 <= p < t.len() - 1 && tk(t, p) is Newline {
        skip_nl(t, p + 1)
    } else {
        p
    }
}

pub open spec fn comparison_op_of(k: TokV) -> Option<CmpOp> {
    match k {
        TokV::Gt => Some(CmpOp::Gt),
        TokV::Lt => Some(CmpOp::Lt),
        TokV::Ge => Some(CmpOp::Ge),
        TokV::Le => Some(CmpOp::Le),
        TokV::Eq => Some(CmpOp::Eq),
        TokV::Ne => Some(CmpOp::Ne),
        _ => None,
    }
}

pub open spec fn add_op_of(k: TokV) -> Option<BinOp> {
    match k {
        TokV::Plus => Some(BinOp::Add),
        TokV::Minus => Some(BinOp::Sub),
        _ => None,
    }
}

pub open spec fn mul_op_of(k: TokV) -> Option<BinOp> {
    match k {
        TokV::Star => Some(BinOp::Mul),
        TokV::Slash => Some(BinOp::Div),
        _ => None,
    }
}

/// Placeholder for positions the parser never reaches.
pub open spec fn bad_e(p: int) -> PR<ExprV> {
    PR { v: ExprV::Num("0.0"@), pos: p, d: seq![] }
}

pub open spec fn in_range(t: Seq<TokenV>, p: int) -> bool {
    0 <= p < t.len()
}

/// `expr := cmp`
pub open spec fn sp_expr(t: Seq<TokenV>, p: int) -> PR<ExprV>
    decreases t.len() - p, 9nat,
{
    if !in_range(t, p) { bad_e(p) } else { sp_comparison(t, p) }
}

/// `cmp := add (cmp_op add)*`, left-associative.
pub open spec fn sp_comparison(t: Seq<TokenV>, p: int) -> PR<ExprV>
    decreases t.len() - p, 8nat,
{
    if !in_range(t, p) {
        bad_e(p)
    } else {
        let l = sp_add(t, p);
        if !(p <= l.pos < t.len()) {
            bad_e(p)
        } else {
            let r = sp_comparison_rest(t, l.pos, l.v);
            PR { v: r.v, pos: r.pos, d: l.d + r.d }
        }
    }
}

pub open spec fn sp_comparison_rest(t: Seq<TokenV>, p: int, lhs: ExprV) -> PR<ExprV>
    decreases t.len() - p, 7nat,
{
    if !in_range(t, p) {
        bad_e(p)
    } else {
        match comparison_op_of(tk(t, p)) {
            None => PR { v: lhs, pos: p, d: seq![] },
            Some(op) => {
                let q = adv(t, p);
                if q <= p {
                    bad_e(p)
                } else {
                    let r = sp_add(t, q);
                    if !(q <= r.pos < t.len()) {
                        bad_e(p)
                    } else {
                        let rest = sp_comparison_rest(
                            t,
                            r.pos,
                            ExprV::Cmp { op, lhs: Box::new(lhs), rhs: Box::new(r.v) },
                        );
                        PR { v: rest.v, pos: rest.pos, d: r.d + rest.d }
                    }
                }
            },
        }
    }
}

/// `add := mul (('+' | '-') mul)*`, left-associative.
pub open spec fn sp_add(t: Seq<TokenV>, p: int) -> PR<ExprV>
    decreases t.len() - p, 6nat,
{
    if !in_range(t, p) {
        bad_e(p)
    } else {
        let l = sp_mul(t, p);
        if !(p <= l.pos < t.len()) {
            bad_e(p)
        } else {
            let r = sp_add_rest(t, l.pos, l.v);
            PR { v: r.v, pos: r.pos, d: l.d + r.d }
        }
    }
}

pub open spec fn sp_add_rest(t: Seq<TokenV>, p: int, lhs: ExprV) -> PR<ExprV>
    decreases t.len() - p, 5nat,
{
    if !in_range(t, p) {
        bad_e(p)
    } else {
        match add_op_of(tk(t, p)) {
            None => PR { v: lhs, pos: p, d: seq![] },
            Some(op) => {
                let q = adv(t, p);
                if q <= p {
                    bad_e(p)
                } else {
                    let r = sp_mul(t, q);
                    if !(q <= r.pos < t.len()) {
                        bad_e(p)
                    } else {
                        let rest = sp_add_rest(
                            t,
                            r.pos,
                            ExprV::Bin { op, lhs: Box::new(lhs), rhs: Box::new(r.v) },
                        );
                        PR { v: rest.v, pos: rest.pos, d: r.d + rest.d }
                    }
                }
            },
        }
    }
}

/// `mul := unary (('*' | '/') unary)*`, left-associative.
pub open spec fn sp_mul(t: Seq<TokenV>, p: int) -> PR<ExprV>
    decreases t.len() - p, 4nat,
{
    if !in_range(t, p) {
        bad_e(p)
    } else {
        let l = sp_unary(t, p);
        if !(p <= l.pos < t.len()) {
            bad_e(p)
        } else {
            let r = sp_mul_rest(t, l.pos, l.v);
            PR { v: r.v, pos: r.pos, d: l.d + r.d }
        }
    }
}

pub open spec fn sp_mul_rest(t: Seq<TokenV>, p: int, lhs: ExprV) -> PR<ExprV>
    decreases t.len() - p, 3nat,
{
    if !in_range(t, p) {
        bad_e(p)
    } else {
        match mul_op_of(tk(t, p)) {
            None => PR { v: lhs, pos: p, d: seq![] },
            Some(op) => {
                let q = adv(t, p);
                if q <= p {
                    bad_e(p)
                } else {
                    let r = sp_unary(t, q);
                    if !(q <= r.pos < t.len()) {
                        bad_e(p)
                    } else {
                        let rest = sp_mul_rest(
                            t,
                            r.pos,
                            ExprV::Bin { op, lhs: Box::new(lhs), rhs: Box::new(r.v) },
                        );
                        PR { v: rest.v, pos: rest.pos, d: r.d + rest.d }
                    }
                }
            },
        }
    }
}

/// `unary := '-' unary | primary`
pub open spec fn sp_unary(t: Seq<TokenV>, p: int) -> PR<ExprV>
    decreases t.len() - p, 2nat,
{
    if !in_range(t, p) {
        bad_e(p)
    } else if tk(t, p) is Minus {
        let q = adv(t, p);
        if q <= p {
            bad_e(p)
        } else {
            let e = sp_unary(t, q);
            PR { v: ExprV::Neg(Box::new(e.v)), pos: e.pos, d: e.d }
        }
    } else {
        sp_primary(t, p)
    }
}

/// `primary := num | ident | ident '(' args ')' | '(' expr ')'`; any other
/// token is reported, consumed, and stands for the literal `0.0`.
pub open spec fn sp_primary(t: Seq<TokenV>, p: int) -> PR<ExprV>
    decreases t.len() - p, 1nat,
{
    if !in_range(t, p) {
        bad_e(p)
    } else {
        match tk(t, p) {
            TokV::Num(l) => PR { v: ExprV::Num(l), pos: adv(t, p), d: seq![] },
            TokV::Ident(n) => {
                let q = adv(t, p);
                if tk(t, q) is LParen {
                    let q3 = skip_nl(t, adv(t, q));
                    if !(p < q3 < t.len()) {
                        bad_e(p)
                    } else {
                        let a = sp_args(t, q3);
                        if !(q3 <= a.pos < t.len()) {
                            bad_e(p)
                        } else {
                            let (pos2, d2) = expect(t, a.pos, TokV::RParen);
                            PR { v: ExprV::Call { name: n, args: a.v }, pos: pos2, d: a.d + d2 }
                        }
                    }
                } else {
                    PR { v: ExprV::Var(n), pos: q, d: seq![] }
                }
            },
            TokV::LParen => {
                let q = adv(t, p);
                if q <= p {
                    bad_e(p)
                } else {
                    let e = sp_expr(t, q);
                    if !(q <= e.pos < t.len()) {
                        bad_e(p)
                    } else {
                        let (pos2, d2) = expect(t, e.pos, TokV::RParen);
                        PR { v: ExprV::Paren(Box::new(e.v)), pos: pos2, d: e.d + d2 }
                    }
                }
            },
            other => PR {
                v: ExprV::Num("0.0"@),
                pos: adv(t, p),
                d: seq![error_v(expr_msg(other), t[p].span)],
            },
        }
    }
}

/// The argument list of a call, starting after `(` and any newlines.
pub open spec fn sp_args(t: Seq<TokenV>, p: int) -> PR<Seq<ExprV>>
    decreases t.len() - p, 10nat,
{
    if !in_range(t, p) {
        PR { v: seq![], pos: p, d: seq![] }
    } else if tk(t, p) is RParen {
        PR { v: seq![], pos: p, d: seq![] }
    } else {
        let first = sp_expr(t, p);
        if !(p <= first.pos < t.len()) {
            PR { v: seq![], pos: p, d: seq![] }
        } else {
            let rest = sp_args_rest(t, first.pos, seq![first.v]);
            PR { v: rest.v, pos: rest.pos, d: first.d + rest.d }
        }
    }
}

/// Further `, expr` arguments, appended to `acc`.
pub open spec fn sp_args_rest(t: Seq<TokenV>, p: int, acc: Seq<ExprV>) -> PR<Seq<ExprV>>
    decreases t.len() - p, 0nat,
{
    if !in_range(t, p) {
        PR { v: acc, pos: p, d: seq![] }
    } else if tk(t, p) is Comma {
        let q2 = skip_nl(t, adv(t, p));
        if !(p < q2 < t.len()) {
            PR { v: acc, pos: p, d: seq![] }
        } else {
            let a = sp_expr(t, q2);
            if !(q2 <= a.pos < t.len()) {
                PR { v: acc, pos: p, d: seq![] }
            } else {
                let r = sp_args_rest(t, a.pos, acc.push(a.v));
                PR { v: r.v, pos: r.pos, d: a.d + r.d }
            }
        }
    } else {
        PR { v: acc, pos: p, d: seq![] }
    }
}

/// Skip tokens up to a plausible statement boundary or block end: a
/// statement keyword or `}` outside any nested block, or `Eof`.
pub open spec fn resync(t: Seq<TokenV>, p: int, depth: nat) -> int
    decreases t.len() - p,
{
    if !in_range(t, p) {
        p
    } else {
        let q = adv(t, p);
        match tk(t, p) {
            TokV::LBrace => if q <= p { p } else { resync(t, q, depth + 1) },
            TokV::RBrace => if depth == 0 || q <= p { p } else { resync(t, q, (depth - 1) as nat) },
            TokV::Let | TokV::Observe | TokV::If => if depth == 0 || q <= p { p } else { resync(t, q, depth) },
            TokV::Eof => p,
            _ => if q <= p { p } else { resync(t, q, depth) },
        }
    }
}

pub open spec fn bad_s(p: int) -> PR<Option<StmtV>> {
    PR { v: None, pos: p, d: seq![] }
}

/// A statement starting at `p`.
pub open spec fn sp_stmt(t: Seq<TokenV>, p: int) -> PR<Option<StmtV>>
    decreases t.len() - p, 3nat,
{
    if !in_range(t, p) {
        bad_s(p)
    } else {
        match tk(t, p) {
            TokV::Let => sp_let(t, p),
            TokV::Observe => sp_observe(t, p),
            TokV::If => sp_if(t, p),
            other => PR { v: None, pos: p, d: seq![error_v(stmt_msg(other), t[p].span)] },
        }
    }
}

/// `let name ~ expr` or `let name = expr`.
pub open spec fn sp_let(t: Seq<TokenV>, p: int) -> PR<Option<StmtV>>
    decreases t.len() - p, 2nat,
{
    if !in_range(t, p) {
        bad_s(p)
    } else {
        let start = t[p].span.start;
        let q = adv(t, p);
        match tk(t, q) {
            TokV::Ident(n) => {
                let q2 = adv(t, q);
                if tk(t, q2) is Tilde {
                    let e = sp_expr(t, adv(t, q2));
                    PR {
                        v: Some(StmtV::Prior { name: n, dist: e.v, span: Span { start, end: t[e.pos].span.end } }),
                        pos: e.pos,
                        d: e.d,
                    }
                } else if tk(t, q2) is Equals {
                    let e = sp_expr(t, adv(t, q2));
                    PR {
                        v: Some(StmtV::Let { name: n, value: e.v, span: Span { start, end: t[e.pos].span.end } }),
                        pos: e.pos,
                        d: e.d,
                    }
                } else {
                    PR { v: None, pos: q2, d: seq![error_v(expected_msg(TokV::Equals), t[q2].span)] }
                }
            },
            _ => PR {
                v: None,
                pos: q,
                d: seq![error_v("expected variable name after `let`"@, t[q].span)],
            },
        }
    }
}

/// `observe expr = expr`.
pub open spec fn sp_observe(t: Seq<TokenV>, p: int) -> PR<Option<StmtV>>
    decreases t.len() - p, 2nat,
{
    if !in_range(t, p) {
        bad_s(p)
    } else {
        let start = t[p].span.start;
        let d = sp_expr(t, adv(t, p));
        if !in_range(t, d.pos) {
            bad_s(p)
        } else if tk(t, d.pos) is Equals {
            let v = sp_expr(t, adv(t, d.pos));
            PR {
                v: Some(StmtV::Observe { dist: d.v, value: v.v, span: Span { start, end: t[v.pos].span.end } }),
                pos: v.pos,
                d: d.d + v.d,
            }
        } else {
            PR { v: None, pos: d.pos, d: d.d + seq![error_v(expected_msg(TokV::Equals), t[d.pos].span)] }
        }
    }
}

/// `if expr { block } [else { block }]`.
pub open spec fn sp_if(t: Seq<TokenV>, p: int) -> PR<Option<StmtV>>
    decreases t.len() - p, 2nat,
{
    if !in_range(t, p) {
        bad_s(p)
    } else {
        let start = t[p].span.start;
        let c = sp_expr(t, adv(t, p));
        if !(p < c.pos < t.len()) {
            bad_s(p)
        } else if tk(t, c.pos) is LBrace {
            let q2 = adv(t, c.pos);
            let tb = sp_block(t, q2);
            if !(p < q2 <= tb.pos < t.len()) {
                bad_s(p)
            } else {
                let e = if tk(t, tb.pos) is Else {
                    let q3 = adv(t, tb.pos);
                    if !in_range(t, q3) || q3 <= p {
                        PR { v: seq![], pos: q3, d: seq![] }
                    } else if tk(t, q3) is LBrace {
                        let q4 = adv(t, q3);
                        if q4 <= p { PR { v: seq![], pos: q3, d: seq![] } } else { sp_block(t, q4) }
                    } else {
                        PR { v: seq![], pos: q3, d: seq![error_v(expected_msg(TokV::LBrace), t[q3].span)] }
                    }
                } else {
                    PR { v: seq![], pos: tb.pos, d: seq![] }
                };
                PR {
                    v: Some(StmtV::If {
                        cond: c.v,
                        then_body: tb.v,
                        else_body: e.v,
                        span: Span { start, end: t[e.pos].span.end },
                    }),
                    pos: e.pos,
                    d: c.d + tb.d + e.d,
                }
            }
        } else {
            PR { v: None, pos: c.pos, d: c.d + seq![error_v(expected_msg(TokV::LBrace), t[c.pos].span)] }
        }
    }
}

/// A block body starting after `{`, including the closing `}` when present.
pub open spec fn sp_block(t: Seq<TokenV>, p: int) -> PR<Seq<StmtV>>
    decreases t.len() - p, 5nat,
{
    let q = skip_nl(t, p);
    if !in_range(t, p) || !(p <= q < t.len()) {
        PR { v: seq![], pos: p, d: seq![] }
    } else {
        let items = sp_block_items(t, q);
        if !in_range(t, items.pos) {
            PR { v: seq![], pos: p, d: seq![] }
        } else if tk(t, items.pos) is RBrace {
            PR { v: items.v, pos: adv(t, items.pos), d: items.d }
        } else {
            items
        }
    }
}

/// The position after a statement attempt: on failure, resynchronise.
pub open spec fn after_stmt(t: Seq<TokenV>, s: PR<Option<StmtV>>) -> int {
    let q1 = match s.v {
        Some(_) => s.pos,
        None => resync(t, s.pos, 0),
    };
    skip_nl(t, q1)
}

/// The statements recovered from a statement attempt.
pub open spec fn stmt_items(s: Option<StmtV>) -> Seq<StmtV> {
    match s {
        Some(x) => seq![x],
        None => seq![],
    }
}

/// The statements of a block, up to its `}` or the end of input.
pub open spec fn sp_block_items(t: Seq<TokenV>, p: int) -> PR<Seq<StmtV>>
    decreases t.len() - p, 4nat,
{
    if !in_range(t, p) || tk(t, p) is RBrace || tk(t, p) is Eof {
        PR { v: seq![], pos: p, d: seq![] }
    } else {
        let s = sp_stmt(t, p);
        if !(p <= s.pos < t.len()) {
            PR { v: seq![], pos: p, d: seq![] }
        } else {
            let q2 = after_stmt(t, s);
            if !(p < q2 < t.len()) {
                PR { v: seq![], pos: p, d: seq![] }
            } else {
                let rest = sp_block_items(t, q2);
                PR { v: stmt_items(s.v) + rest.v, pos: rest.pos, d: s.d + rest.d }
            }
        }
    }
}

/// The top-level statements from `p` to the end of input. A token that
/// neither starts a statement nor is skipped by resynchronisation (a `}`
/// outside any block) is reported once and then consumed.
pub open spec fn sp_program_items(t: Seq<TokenV>, p: int) -> PR<Seq<StmtV>>
    decreases t.len() - p,
{
    if !in_range(t, p) || tk(t, p) is Eof {
        PR { v: seq![], pos: p, d: seq![] }
    } else {
        let s = sp_stmt(t, p);
        let q2 = after_stmt(t, s);
        let q3 = if q2 <= p { skip_nl(t, adv(t, p)) } else { q2 };
        if !(p < q3 < t.len()) {
            PR { v: stmt_items(s.v), pos: p, d: s.d }
        } else {
            let rest = sp_program_items(t, q3);
            PR { v: stmt_items(s.v) + rest.v, pos: rest.pos, d: s.d + rest.d }
        }
    }
}

/// The statements and parser diagnostics of a whole token stream.
pub open spec fn sp_program(t: Seq<TokenV>) -> (Seq<StmtV>, Seq<DiagV>) {
    let r = sp_program_items(t, skip_nl(t, 0));
    (r.v, r.d)
}

/// The program and all diagnostics (lexer's first) of a source text.
pub open spec fn parse_spec(src: Seq<char>) -> (Seq<StmtV>, Seq<DiagV>) {
    let (toks, ld) = lex_spec(src);
    let (prog, pd) = sp_program(toks);
    (prog, ld + pd)
}


// ---------------------------------------------------------------------------
// Executable parser
// ---------------------------------------------------------------------------

/// Appends the `Debug` rendering of a token.
fn push_tok_debug(out: &mut String, k: &Tok)
    ensures
        final(out)@ == old(out)@ + tok_debug(k@),
{
    match k {
        Tok::Let => out.append("Let"),
        Tok::Observe => out.append("Observe"),
        Tok::If => out.append("If"),
        Tok::Else => out.append("Else"),
        Tok::Tilde => out.append("Tilde"),
        Tok::Equals => out.append("Equals"),
        Tok::Eq => out.append("Eq"),
        Tok::Ne => out.append("Ne"),
        Tok::Gt => out.append("Gt"),
        Tok::Lt => out.append("Lt"),
        Tok::Ge => out.append("Ge"),
        Tok::Le => out.append("Le"),
        Tok::Plus => out.append("Plus"),
        Tok::Minus => out.append("Minus"),
        Tok::Star => out.append("Star"),
        Tok::Slash => out.append("Slash"),
        Tok::LParen => out.append("LParen"),
        Tok::RParen => out.append("RParen"),
        Tok::LBrace => out.append("LBrace"),
        Tok::RBrace => out.append("RBrace"),
        Tok::Comma => out.append("Comma"),
        Tok::Num(l) => {
            out.append("Num(");
            push_num_text(out, l);
            out.append(")");
            proof {
                assert(final(out)@ =~= old(out)@ + tok_debug(k@));
            }
        },
        Tok::Ident(n) => {
            out.append("Ident(\"");
            out.append(n.as_str());
            out.append("\")");
            proof {
                assert(final(out)@ =~= old(out)@ + tok_debug(k@));
            }
        },
        Tok::Newline => out.append("Newline"),
        Tok::Eof => out.append("Eof"),
    }
}

/// A message made of a prefix, a token's `Debug` rendering and a suffix.
fn tok_message(prefix: &str, k: &Tok, suffix: &str) -> (m: String)
    ensures
        m@ == prefix@ + tok_debug(k@) + suffix@,
{
    let mut m = String::from_str(prefix);
    push_tok_debug(&mut m, k);
    m.append(suffix);
    m
}

struct Parser<'a> {
    tokens: &'a Vec<Token>,
    pos: usize,
    diagnostics: Vec<Diagnostic>,
}

impl<'a> Parser<'a> {
    spec fn t(&self) -> Seq<TokenV> {
        tokens_view(self.tokens@)
    }

    spec fn inv(&self) -> bool {
        wf_toks(self.t()) && self.pos < self.tokens.len()
    }

    spec fn dv(&self) -> Seq<DiagV> {
        diags_view(self.diagnostics@)
    }
}

/// `n` is the parser state `o` after moving to `pos` and raising `d`.
spec fn follows<'a>(o: Parser<'a>, n: Parser<'a>, pos: int, d: Seq<DiagV>) -> bool {
    &&& n.tokens == o.tokens
    &&& n.inv()
    &&& n.pos == pos
    &&& o.pos <= n.pos
    &&& n.dv() == o.dv() + d
}

spec fn follows_pr<'a, T>(o: Parser<'a>, n: Parser<'a>, r: PR<T>) -> bool {
    follows(o, n, r.pos, r.d)
}

proof fn lemma_not_last(t: Seq<TokenV>, p: int)
    requires
        wf_toks(t),
        0 <= p < t.len(),
        !(tk(t, p) is Eof),
    ensures
        adv(t, p) == p + 1,
        p + 1 < t.len(),
{
}

impl<'a> Parser<'a> {
    fn advance(&mut self)
        requires
            old(self).inv(),
        ensures
            follows(*old(self), *final(self), adv(old(self).t(), old(self).pos as int), seq![]),
    {
        if self.pos < self.tokens.len() - 1 {
            self.pos += 1;
        }
        proof {
            assert(self.dv() =~= old(self).dv() + seq![]);
        }
    }

    fn push_diag(&mut self, d: Diagnostic)
        requires
            old(self).inv(),
        ensures
            follows(*old(self), *final(self), old(self).pos as int, seq![d@]),
    {
        self.diagnostics.push(d);
        proof {
            assert(self.dv() =~= old(self).dv() + seq![d@]);
        }
    }

    fn span(&self) -> (s: Span)
        requires
            self.inv(),
        ensures
            s == self.t()[self.pos as int].span,
    {
        self.tokens[self.pos].span
    }

    fn skip_newlines(&mut self)
        requires
            old(self).inv(),
        ensures
            follows(*old(self), *final(self), skip_nl(old(self).t(), old(self).pos as int), seq![]),
    {
        let ghost o = *self;
        while matches!(self.tokens[self.pos].tok, Tok::Newline)
            invariant
                follows(o, *self, self.pos as int, seq![]),
                skip_nl(o.t(), o.pos as int) == skip_nl(o.t(), self.pos as int),
            decreases self.tokens.len() - self.pos,
        {
            proof {
                lemma_not_last(self.t(), self.pos as int);
            }
            self.advance();
            proof {
                assert(self.dv() =~= o.dv() + seq![]);
            }
        }
    }

    fn expect_tok(&mut self, present: bool, k: Tok) -> (b: bool)
        requires
            old(self).inv(),
            present == (tk(old(self).t(), old(self).pos as int) == k@),
        ensures
            b == present,
            follows(
                *old(self),
                *final(self),
                expect(old(self).t(), old(self).pos as int, k@).0,
                expect(old(self).t(), old(self).pos as int, k@).1,
            ),
    {
        if present {
            self.advance();
            true
        } else {
            let m = tok_message("expected `", &k, "`");
            let sp = self.span();
            self.push_diag(Diagnostic { severity: Severity::Error, message: m, span: sp });
            false
        }
    }

    fn parse_expr(&mut self) -> (e: Expr)
        requires
            old(self).inv(),
        ensures
            follows_pr(*old(self), *final(self), sp_expr(old(self).t(), old(self).pos as int)),
            e@ == sp_expr(old(self).t(), old(self).pos as int).v,
        decreases old(self).tokens.len() - old(self).pos, 9nat,
    {
        self.parse_comparison()
    }

    fn parse_comparison(&mut self) -> (e: Expr)
        requires
            old(self).inv(),
        ensures
            follows_pr(*old(self), *final(self), sp_comparison(old(self).t(), old(self).pos as int)),
            e@ == sp_comparison(old(self).t(), old(self).pos as int).v,
        decreases old(self).tokens.len() - old(self).pos, 8nat,
    {
        let ghost o = *self;
        let l = self.parse_add();
        let ghost lr = sp_add(o.t(), o.pos as int);
        let r = self.parse_comparison_rest(l);
        proof {
            let rr = sp_comparison_rest(o.t(), lr.pos, lr.v);
            assert(self.dv() =~= o.dv() + (lr.d + rr.d));
        }
        r
    }

    fn parse_comparison_rest(&mut self, lhs: Expr) -> (e: Expr)
        requires
            old(self).inv(),
        ensures
            follows_pr(*old(self), *final(self), sp_comparison_rest(old(self).t(), old(self).pos as int, lhs@)),
            e@ == sp_comparison_rest(old(self).t(), old(self).pos as int, lhs@).v,
        decreases old(self).tokens.len() - old(self).pos, 7nat,
    {
        let ghost o = *self;
        let op = match self.tokens[self.pos].tok {
            Tok::Gt => CmpOp::Gt,
            Tok::Lt => CmpOp::Lt,
            Tok::Ge => CmpOp::Ge,
            Tok::Le => CmpOp::Le,
            Tok::Eq => CmpOp::Eq,
            Tok::Ne => CmpOp::Ne,
            _ => {
                proof {
                    assert(self.dv() =~= o.dv() + seq![]);
                }
                return lhs;
            },
        };
        proof {
            lemma_not_last(self.t(), self.pos as int);
        }
        self.advance();
        let ghost q = self.pos as int;
        let rhs = self.parse_add();
        let ghost r = sp_add(o.t(), q);
        let ne = Expr::Cmp { op, lhs: Box::new(lhs), rhs: Box::new(rhs) };
        let res = self.parse_comparison_rest(ne);
        proof {
            let rest = sp_comparison_rest(o.t(), r.pos, ne@);
            assert(self.dv() =~= o.dv() + (r.d + rest.d));
        }
        res
    }

    fn parse_add(&mut self) -> (e: Expr)
        requires
            old(self).inv(),
        ensures
            follows_pr(*old(self), *final(self), sp_add(old(self).t(), old(self).pos as int)),
            e@ == sp_add(old(self).t(), old(self).pos as int).v,
        decreases old(self).tokens.len() - old(self).pos, 6nat,
    {
        let ghost o = *self;
        let l = self.parse_mul();
        let ghost lr = sp_mul(o.t(), o.pos as int);
        let r = self.parse_add_rest(l);
        proof {
            let rr = sp_add_rest(o.t(), lr.pos, lr.v);
            assert(self.dv() =~= o.dv() + (lr.d + rr.d));
        }
        r
    }

    fn parse_add_rest(&mut self, lhs: Expr) -> (e: Expr)
        requires
            old(self).inv(),
        ensures
            follows_pr(*old(self), *final(self), sp_add_rest(old(self).t(), old(self).pos as int, lhs@)),
            e@ == sp_add_rest(old(self).t(), old(self).pos as int, lhs@).v,
        decreases old(self).tokens.len() - old(self).pos, 5nat,
    {
        let ghost o = *self;
        let op = match self.tokens[self.pos].tok {
            Tok::Plus => BinOp::Add,
            Tok::Minus => BinOp::Sub,
            _ => {
                proof {
                    assert(self.dv() =~= o.dv() + seq![]);
                }
                return lhs;
            },
        };
        proof {
            lemma_not_last(self.t(), self.pos as int);
        }
        self.advance();
        let ghost q = self.pos as int;
        let rhs = self.parse_mul();
        let ghost r = sp_mul(o.t(), q);
        let ne = Expr::Bin { op, lhs: Box::new(lhs), rhs: Box::new(rhs) };
        let res = self.parse_add_rest(ne);
        proof {
            let rest = sp_add_rest(o.t(), r.pos, ne@);
            assert(self.dv() =~= o.dv() + (r.d + rest.d));
        }
        res
    }

    fn parse_mul(&mut self) -> (e: Expr)
        requires
            old(self).inv(),
        ensures
            follows_pr(*old(self), *final(self), sp_mul(old(self).t(), old(self).pos as int)),
            e@ == sp_mul(old(self).t(), old(self).pos as int).v,
        decreases old(self).tokens.len() - old(self).pos, 4nat,
    {
        let ghost o = *self;
        let l = self.parse_unary();
        let ghost lr = sp_unary(o.t(), o.pos as int);
        let r = self.parse_mul_rest(l);
        proof {
            let rr = sp_mul_rest(o.t(), lr.pos, lr.v);
            assert(self.dv() =~= o.dv() + (lr.d + rr.d));
        }
        r
    }

    fn parse_mul_rest(&mut self, lhs: Expr) -> (e: Expr)
        requires
            old(self).inv(),
        ensures
            follows_pr(*old(self), *final(self), sp_mul_rest(old(self).t(), old(self).pos as int, lhs@)),
            e@ == sp_mul_rest(old(self).t(), old(self).pos as int, lhs@).v,
        decreases old(self).tokens.len() - old(self).pos, 3nat,
    {
        let ghost o = *self;
        let op = match self.tokens[self.pos].tok {
            Tok::Star => BinOp::Mul,
            Tok::Slash => BinOp::Div,
            _ => {
                proof {
                    assert(self.dv() =~= o.dv() + seq![]);
                }
                return lhs;
            },
        };
        proof {
            lemma_not_last(self.t(), self.pos as int);
        }
        self.advance();
        let ghost q = self.pos as int;
        let rhs = self.parse_unary();
        let ghost r = sp_unary(o.t(), q);
        let ne = Expr::Bin { op, lhs: Box::new(lhs), rhs: Box::new(rhs) };
        let res = self.parse_mul_rest(ne);
        proof {
            let rest = sp_mul_rest(o.t(), r.pos, ne@);
            assert(self.dv() =~= o.dv() + (r.d + rest.d));
        }
        res
    }

    fn parse_unary(&mut self) -> (e: Expr)
        requires
            old(self).inv(),
        ensures
            follows_pr(*old(self), *final(self), sp_unary(old(self).t(), old(self).pos as int)),
            e@ == sp_unary(old(self).t(), old(self).pos as int).v,
        decreases old(self).tokens.len() - old(self).pos, 2nat,
    {
        if matches!(self.tokens[self.pos].tok, Tok::Minus) {
            proof {
                lemma_not_last(self.t(), self.pos as int);
            }
            self.advance();
            let e = self.parse_unary();
            return Expr::Neg(Box::new(e));
        }
        self.parse_primary()
    }

    #[verifier::rlimit(60)]
    #[verifier::spinoff_prover]
    fn parse_primary(&mut self) -> (e: Expr)
        requires
            old(self).inv(),
        ensures
            follows_pr(*old(self), *final(self), sp_primary(old(self).t(), old(self).pos as int)),
            e@ == sp_primary(old(self).t(), old(self).pos as int).v,
        decreases old(self).tokens.len() - old(self).pos, 1nat,
    {
        let ghost o = *self;
        let toks: &'a Vec<Token> = self.tokens;
        match &toks[self.pos].tok {
            Tok::Num(v) => {
                let v = v.clone();
                self.advance();
                Expr::Num(v)
            },
            Tok::Ident(name) => {
                let name = name.clone();
                proof {
                    lemma_not_last(self.t(), self.pos as int);
                }
                self.advance();
                if matches!(self.tokens[self.pos].tok, Tok::LParen) {
                    proof {
                        lemma_not_last(self.t(), self.pos as int);
                    }
                    self.advance();
                    self.skip_newlines();
                    let ghost q3 = self.pos as int;
                    let args = self.parse_args();
                    let ghost a = sp_args(o.t(), q3);
                    let present = matches!(self.tokens[self.pos].tok, Tok::RParen);
                    self.expect_tok(present, Tok::RParen);
                    proof {
                        let (pos2, d2) = expect(o.t(), a.pos, TokV::RParen);
                        assert(self.dv() =~= o.dv() + (a.d + d2));
                    }
                    Expr::Call { name, args }
                } else {
                    Expr::Var(name)
                }
            },
            Tok::LParen => {
                proof {
                    lemma_not_last(self.t(), self.pos as int);
                }
                self.advance();
                let ghost q = self.pos as int;
                let e = self.parse_expr();
                let ghost er = sp_expr(o.t(), q);
                let present = matches!(self.tokens[self.pos].tok, Tok::RParen);
                self.expect_tok(present, Tok::RParen);
                proof {
                    let (pos2, d2) = expect(o.t(), er.pos, TokV::RParen);
                    assert(self.dv() =~= o.dv() + (er.d + d2));
                }
                Expr::Paren(Box::new(e))
            },
            other => {
                let m = tok_message("unexpected token `", other, "` in expression");
                let sp = self.span();
                self.push_diag(Diagnostic { severity: Severity::Error, message: m, span: sp });
                self.advance();
                proof {
                    assert(self.dv() =~= o.dv() + seq![error_v(expr_msg(other@), o.t()[o.pos as int].span)]);
                }
                Expr::Num(String::from_str("0.0"))
            },
        }
    }

    #[verifier::rlimit(40)]
    #[verifier::spinoff_prover]
    fn parse_args(&mut self) -> (args: Vec<Expr>)
        requires
            old(self).inv(),
        ensures
            follows_pr(*old(self), *final(self), sp_args(old(self).t(), old(self).pos as int)),
            exprs_v(args@) == sp_args(old(self).t(), old(self).pos as int).v,
        decreases old(self).tokens.len() - old(self).pos, 10nat,
    {
        let ghost o = *self;
        let mut args: Vec<Expr> = Vec::new();
        if matches!(self.tokens[self.pos].tok, Tok::RParen) {
            proof {
                assert(self.dv() =~= o.dv() + seq![]);
                assert(exprs_v(args@) =~= seq![]);
            }
            return args;
        }
        let first = self.parse_expr();
        let ghost f = sp_expr(o.t(), o.pos as int);
        args.push(first);
        proof {
            assert(args@.drop_last() =~= Seq::<Expr>::empty());
            assert(exprs_v(args@.drop_last()) =~= Seq::<ExprV>::empty());
            assert(exprs_v(args@) =~= seq![f.v]);
        }
        self.parse_args_rest(&mut args);
        proof {
            let rest = sp_args_rest(o.t(), f.pos, seq![f.v]);
            assert(self.dv() =~= o.dv() + (f.d + rest.d));
        }
        args
    }

    fn parse_args_rest(&mut self, args: &mut Vec<Expr>)
        requires
            old(self).inv(),
        ensures
            follows_pr(*old(self), *final(self), sp_args_rest(old(self).t(), old(self).pos as int, exprs_v(old(args)@))),
            exprs_v(final(args)@) == sp_args_rest(old(self).t(), old(self).pos as int, exprs_v(old(args)@)).v,
        decreases old(self).tokens.len() - old(self).pos, 0nat,
    {
        let ghost o = *self;
        let ghost a0 = exprs_v(args@);
        if !matches!(self.tokens[self.pos].tok, Tok::Comma) {
            proof {
                assert(self.dv() =~= o.dv() + seq![]);
            }
            return;
        }
        proof {
            lemma_not_last(self.t(), self.pos as int);
        }
        self.advance();
        self.skip_newlines();
        let ghost q2 = self.pos as int;
        let a = self.parse_expr();
        let ghost ar = sp_expr(o.t(), q2);
        args.push(a);
        proof {
            assert(args@.drop_last() =~= old(args)@);
            assert(exprs_v(args@) == a0.push(ar.v));
        }
        self.parse_args_rest(args);
        proof {
            let rest = sp_args_rest(o.t(), ar.pos, a0.push(ar.v));
            assert(self.dv() =~= o.dv() + (ar.d + rest.d));
        }
    }
}

/// The view of an optional statement.
pub open spec fn opt_stmt_v(s: Option<Stmt>) -> Option<StmtV> {
    match s {
        Some(x) => Some(x@),
        None => None,
    }
}

/// Tokens at which resynchronisation stops outside any block.
pub open spec fn stops_resync(k: TokV) -> bool {
    k is Let || k is Observe || k is If || k is RBrace || k is Eof
}


proof fn lemma_block_items_step(t: Seq<TokenV>, p: int)
    requires
        in_range(t, p),
        !(tk(t, p) is RBrace),
        !(tk(t, p) is Eof),
        p <= sp_stmt(t, p).pos < t.len(),
        p < after_stmt(t, sp_stmt(t, p)) < t.len(),
    ensures
        ({
            let s = sp_stmt(t, p);
            let rest = sp_block_items(t, after_stmt(t, s));
            sp_block_items(t, p) == PR { v: stmt_items(s.v) + rest.v, pos: rest.pos, d: s.d + rest.d }
        }),
{
}

proof fn lemma_program_items_step(t: Seq<TokenV>, p: int, q3: int)
    requires
        in_range(t, p),
        !(tk(t, p) is Eof),
        q3 == (if after_stmt(t, sp_stmt(t, p)) <= p { skip_nl(t, adv(t, p)) } else { after_stmt(t, sp_stmt(t, p)) }),
        p < q3 < t.len(),
    ensures
        ({
            let s = sp_stmt(t, p);
            let rest = sp_program_items(t, q3);
            sp_program_items(t, p) == PR { v: stmt_items(s.v) + rest.v, pos: rest.pos, d: s.d + rest.d }
        }),
{
}

impl<'a> Parser<'a> {
    fn resync(&mut self)
        requires
            old(self).inv(),
        ensures
            follows(*old(self), *final(self), resync(old(self).t(), old(self).pos as int, 0), seq![]),
            final(self).pos == old(self).pos ==> stops_resync(tk(old(self).t(), old(self).pos as int)),
    {
        let ghost o = *self;
        let mut depth: usize = 0;
        loop
            invariant
                follows(o, *self, self.pos as int, seq![]),
                o == *old(self),
                depth <= self.pos,
                resync(o.t(), o.pos as int, 0) == resync(o.t(), self.pos as int, depth as nat),
                self.pos == o.pos ==> depth == 0,
            decreases self.tokens.len() - self.pos,
        {
            match self.tokens[self.pos].tok {
                Tok::LBrace => {
                    proof {
                        lemma_not_last(self.t(), self.pos as int);
                    }
                    depth += 1;
                    self.advance();
                },
                Tok::RBrace => {
                    if depth == 0 {
                        proof {
                            assert(self.dv() =~= o.dv() + seq![]);
                        }
                        return;
                    }
                    proof {
                        lemma_not_last(self.t(), self.pos as int);
                    }
                    depth -= 1;
                    self.advance();
                },
                Tok::Let | Tok::Observe | Tok::If => {
                    if depth == 0 {
                        proof {
                            assert(self.dv() =~= o.dv() + seq![]);
                        }
                        return;
                    }
                    proof {
                        lemma_not_last(self.t(), self.pos as int);
                    }
                    self.advance();
                },
                Tok::Eof => {
                    proof {
                        assert(self.dv() =~= o.dv() + seq![]);
                    }
                    return;
                },
                _ => {
                    proof {
                        lemma_not_last(self.t(), self.pos as int);
                    }
                    self.advance();
                },
            }
            proof {
                assert(self.dv() =~= o.dv() + seq![]);
            }
        }
    }

    fn parse_stmt(&mut self) -> (r: Option<Stmt>)
        requires
            old(self).inv(),
        ensures
            follows_pr(*old(self), *final(self), sp_stmt(old(self).t(), old(self).pos as int)),
            opt_stmt_v(r) == sp_stmt(old(self).t(), old(self).pos as int).v,
            ({
                let k = tk(old(self).t(), old(self).pos as int);
                if k is Let || k is Observe || k is If {
                    final(self).pos > old(self).pos
                } else {
                    final(self).pos == old(self).pos && r is None
                }
            }),
        decreases old(self).tokens.len() - old(self).pos, 3nat,
    {
        let ghost o = *self;
        let toks: &'a Vec<Token> = self.tokens;
        match &toks[self.pos].tok {
            Tok::Let => self.parse_let(),
            Tok::Observe => self.parse_observe(),
            Tok::If => self.parse_if(),
            other => {
                let m = tok_message("unexpected token `", other, "` at statement position");
                let sp = self.span();
                self.push_diag(Diagnostic { severity: Severity::Error, message: m, span: sp });
                None
            },
        }
    }

    fn parse_let(&mut self) -> (r: Option<Stmt>)
        requires
            old(self).inv(),
            tk(old(self).t(), old(self).pos as int) is Let,
        ensures
            follows_pr(*old(self), *final(self), sp_let(old(self).t(), old(self).pos as int)),
            opt_stmt_v(r) == sp_let(old(self).t(), old(self).pos as int).v,
            final(self).pos > old(self).pos,
        decreases old(self).tokens.len() - old(self).pos, 2nat,
    {
        let ghost o = *self;
        let start = self.tokens[self.pos].span.start;
        proof {
            lemma_not_last(self.t(), self.pos as int);
        }
        self.advance();
        let toks: &'a Vec<Token> = self.tokens;
        let name = match &toks[self.pos].tok {
            Tok::Ident(n) => n.clone(),
            _ => {
                let sp = self.span();
                self.push_diag(Diagnostic::parse_error("expected variable name after `let`", sp));
                proof {
                    assert(self.dv() =~= o.dv() + sp_let(o.t(), o.pos as int).d);
                }
                return None;
            },
        };
        proof {
            lemma_not_last(self.t(), self.pos as int);
        }
        self.advance();
        if matches!(self.tokens[self.pos].tok, Tok::Tilde) {
            proof {
                lemma_not_last(self.t(), self.pos as int);
            }
            self.advance();
            let dist = self.parse_expr();
            let end = self.tokens[self.pos].span.end;
            proof {
                assert(self.dv() =~= o.dv() + sp_let(o.t(), o.pos as int).d);
            }
            Some(Stmt::Prior { name, dist, span: Span::new(start, end) })
        } else {
            let present = matches!(self.tokens[self.pos].tok, Tok::Equals);
            if self.expect_tok(present, Tok::Equals) {
                let value = self.parse_expr();
                let end = self.tokens[self.pos].span.end;
                proof {
                    assert(self.dv() =~= o.dv() + sp_let(o.t(), o.pos as int).d);
                }
                Some(Stmt::Let { name, value, span: Span::new(start, end) })
            } else {
                None
            }
        }
    }

    #[verifier::rlimit(40)]
    #[verifier::spinoff_prover]
    fn parse_observe(&mut self) -> (r: Option<Stmt>)
        requires
            old(self).inv(),
            tk(old(self).t(), old(self).pos as int) is Observe,
        ensures
            follows_pr(*old(self), *final(self), sp_observe(old(self).t(), old(self).pos as int)),
            opt_stmt_v(r) == sp_observe(old(self).t(), old(self).pos as int).v,
            final(self).pos > old(self).pos,
        decreases old(self).tokens.len() - old(self).pos, 2nat,
    {
        let ghost o = *self;
        let start = self.tokens[self.pos].span.start;
        proof {
            lemma_not_last(self.t(), self.pos as int);
        }
        self.advance();
        let ghost q = self.pos as int;
        let dist = self.parse_expr();
        let ghost dr = sp_expr(o.t(), q);
        let present = matches!(self.tokens[self.pos].tok, Tok::Equals);
        if !self.expect_tok(present, Tok::Equals) {
            proof {
                assert(self.dv() =~= o.dv() + sp_observe(o.t(), o.pos as int).d);
            }
            return None;
        }
        let ghost q2 = self.pos as int;
        let value = self.parse_expr();
        let ghost vr = sp_expr(o.t(), q2);
        let end = self.tokens[self.pos].span.end;
        proof {
            assert(self.dv() =~= o.dv() + (dr.d + vr.d));
        }
        Some(Stmt::Observe { dist, value, span: Span::new(start, end) })
    }

    #[verifier::rlimit(100)]
    #[verifier::spinoff_prover]
    fn parse_if(&mut self) -> (r: Option<Stmt>)
        requires
            old(self).inv(),
            tk(old(self).t(), old(self).pos as int) is If,
        ensures
            follows_pr(*old(self), *final(self), sp_if(old(self).t(), old(self).pos as int)),
            opt_stmt_v(r) == sp_if(old(self).t(), old(self).pos as int).v,
            final(self).pos > old(self).pos,
        decreases old(self).tokens.len() - old(self).pos, 2nat,
    {
        let ghost o = *self;
        let start = self.tokens[self.pos].span.start;
        proof {
            lemma_not_last(self.t(), self.pos as int);
        }
        self.advance();
        let ghost q = self.pos as int;
        let cond = self.parse_expr();
        let ghost cr = sp_expr(o.t(), q);
        let present = matches!(self.tokens[self.pos].tok, Tok::LBrace);
        if !self.expect_tok(present, Tok::LBrace) {
            proof {
                assert(self.dv() =~= o.dv() + sp_if(o.t(), o.pos as int).d);
            }
            return None;
        }
        let ghost q2 = self.pos as int;
        let then_body = self.parse_block();
        let ghost tb = sp_block(o.t(), q2);
        let ghost e_d: Seq<DiagV> = seq![];
        let else_body = if matches!(self.tokens[self.pos].tok, Tok::Else) {
            proof {
                lemma_not_last(self.t(), self.pos as int);
            }
            self.advance();
            let present = matches!(self.tokens[self.pos].tok, Tok::LBrace);
            if !self.expect_tok(present, Tok::LBrace) {
                proof {
                    e_d = seq![error_v(expected_msg(TokV::LBrace), o.t()[self.pos as int].span)];
                }
                Vec::new()
            } else {
                let ghost q4 = self.pos as int;
                let b = self.parse_block();
                proof {
                    e_d = sp_block(o.t(), q4).d;
                }
                b
            }
        } else {
            Vec::new()
        };
        let end = self.tokens[self.pos].span.end;
        proof {
            assert(stmts_v(Seq::<Stmt>::empty()) =~= Seq::<StmtV>::empty());
            assert(self.dv() =~= o.dv() + (cr.d + tb.d + e_d));
        }
        Some(Stmt::If { cond, then_body, else_body, span: Span::new(start, end) })
    }

    #[verifier::rlimit(80)]
    #[verifier::spinoff_prover]
    fn parse_block(&mut self) -> (r: Vec<Stmt>)
        requires
            old(self).inv(),
        ensures
            follows_pr(*old(self), *final(self), sp_block(old(self).t(), old(self).pos as int)),
            stmts_v(r@) == sp_block(old(self).t(), old(self).pos as int).v,
        decreases old(self).tokens.len() - old(self).pos, 5nat,
    {
        let ghost o = *self;
        let mut stmts: Vec<Stmt> = Vec::new();
        self.skip_newlines();
        let ghost q = self.pos as int;
        let ghost acc_d: Seq<DiagV> = seq![];
        proof {
            assert(stmts_v(stmts@) =~= Seq::<StmtV>::empty());
        }
        while !matches!(self.tokens[self.pos].tok, Tok::RBrace) && !matches!(self.tokens[self.pos].tok, Tok::Eof)
            invariant
                self.tokens == o.tokens,
                o.tokens == old(self).tokens,
                o.pos == old(self).pos,
                self.inv(),
                q <= self.pos,
                o.pos <= q,
                q == skip_nl(o.t(), o.pos as int),
                self.dv() == o.dv() + acc_d,
                sp_block_items(o.t(), q).v == stmts_v(stmts@) + sp_block_items(o.t(), self.pos as int).v,
                sp_block_items(o.t(), q).pos == sp_block_items(o.t(), self.pos as int).pos,
                sp_block_items(o.t(), q).d == acc_d + sp_block_items(o.t(), self.pos as int).d,
            decreases self.tokens.len() - self.pos,
        {
            let ghost p = self.pos as int;
            let ghost d0 = acc_d;
            let ghost sv0 = stmts_v(stmts@);
            let ghost s0 = stmts@;
            let st = self.parse_stmt();
            let ghost sr = sp_stmt(o.t(), p);
            match st {
                Some(x) => {
                    stmts.push(x);
                    proof {
                        assert(stmts@.drop_last() =~= s0);
                    }
                },
                None => {
                    self.resync();
                },
            }
            self.skip_newlines();
            proof {
                lemma_block_items_step(o.t(), p);
                let rest = sp_block_items(o.t(), self.pos as int);
                assert(sv0 + stmt_items(sr.v) + rest.v =~= sv0 + (stmt_items(sr.v) + rest.v));
                assert(stmts_v(stmts@) == sv0 + stmt_items(sr.v));
                acc_d = d0 + sr.d;
                assert(self.dv() =~= o.dv() + acc_d);
                assert(d0 + sr.d + rest.d =~= d0 + (sr.d + rest.d));
            }
        }
        let ghost items = sp_block_items(o.t(), q);
        proof {
            assert(stmts_v(stmts@) =~= items.v);
        }
        if matches!(self.tokens[self.pos].tok, Tok::RBrace) {
            proof {
                lemma_not_last(self.t(), self.pos as int);
            }
            self.advance();
            proof {
                assert(self.dv() =~= o.dv() + items.d);
            }
        }
        proof {
            assert(acc_d =~= items.d);
        }
        stmts
    }

    #[verifier::rlimit(80)]
    #[verifier::spinoff_prover]
    fn parse_program(&mut self) -> (p: Program)
        requires
            old(self).inv(),
            old(self).pos == 0,
        ensures
            final(self).tokens == old(self).tokens,
            final(self).inv(),
            p@ == sp_program(old(self).t()).0,
            final(self).dv() == old(self).dv() + sp_program(old(self).t()).1,
    {
        let ghost o = *self;
        let mut statements: Vec<Stmt> = Vec::new();
        self.skip_newlines();
        let ghost q = self.pos as int;
        let ghost acc_d: Seq<DiagV> = seq![];
        proof {
            assert(stmts_v(statements@) =~= Seq::<StmtV>::empty());
            assert(self.dv() =~= o.dv() + acc_d);
        }
        while !matches!(self.tokens[self.pos].tok, Tok::Eof)
            invariant
                self.tokens == o.tokens,
                self.inv(),
                q == skip_nl(o.t(), 0),
                self.dv() == o.dv() + acc_d,
                sp_program_items(o.t(), q).v == stmts_v(statements@) + sp_program_items(o.t(), self.pos as int).v,
                sp_program_items(o.t(), q).d == acc_d + sp_program_items(o.t(), self.pos as int).d,
            decreases self.tokens.len() - self.pos,
        {
            let ghost p = self.pos as int;
            let ghost d0 = acc_d;
            let ghost sv0 = stmts_v(statements@);
            let ghost s0 = statements@;
            let start = self.pos;
            let st = self.parse_stmt();
            let ghost sr = sp_stmt(o.t(), p);
            match st {
                Some(x) => {
                    statements.push(x);
                    proof {
                        assert(statements@.drop_last() =~= s0);
                    }
                },
                None => {
                    self.resync();
                },
            }
            self.skip_newlines();
            if self.pos == start {
                // A token that neither starts a statement nor is skipped
                // (a `}` outside any block): consume it.
                proof {
                    lemma_not_last(self.t(), self.pos as int);
                }
                self.advance();
                self.skip_newlines();
            }
            proof {
                lemma_program_items_step(o.t(), p, self.pos as int);
                let rest = sp_program_items(o.t(), self.pos as int);
                assert(sv0 + stmt_items(sr.v) + rest.v =~= sv0 + (stmt_items(sr.v) + rest.v));
                assert(stmts_v(statements@) == sv0 + stmt_items(sr.v));
                acc_d = d0 + sr.d;
                assert(self.dv() =~= o.dv() + acc_d);
                assert(d0 + sr.d + rest.d =~= d0 + (sr.d + rest.d));
            }
        }
        proof {
            let r = sp_program_items(o.t(), self.pos as int);
            assert(r.v =~= Seq::<StmtV>::empty());
            assert(r.d =~= Seq::<DiagV>::empty());
            assert(stmts_v(statements@) =~= sp_program_items(o.t(), q).v);
            assert(acc_d =~= sp_program_items(o.t(), q).d);
        }
        Program { statements }
    }
}

/// The outcome of parsing: a (possibly partial) program and every
/// diagnostic, lexer diagnostics first.
pub struct ParseResult {
    pub program: Program,
    pub diagnostics: Vec<Diagnostic>,
}

/// Parse a source text. Never fails: malformed input yields diagnostics and
/// the statements that could be recovered.
pub fn parse(src: &str) -> (r: ParseResult)
    ensures
        r.program@ == parse_spec(src@).0,
        diags_view(r.diagnostics@) == parse_spec(src@).1,
{
    let (tokens, mut diagnostics) = lex(src);
    let mut p = Parser { tokens: &tokens, pos: 0, diagnostics: Vec::new() };
    proof {
        assert(p.dv() =~= Seq::<DiagV>::empty());
    }
    let program = p.parse_program();
    let ghost ld = diags_view(diagnostics@);
    let mut pd = p.diagnostics;
    diagnostics.append(&mut pd);
    proof {
        assert(diags_view(diagnostics@) =~= ld + sp_program(tokens_view(tokens@)).1);
    }
    ParseResult { program, diagnostics }
}

/// Whether a diagnostic view is a warning.
pub open spec fn is_warning(d: DiagV) -> bool {
    d.severity == Severity::Warning
}

impl ParseResult {
    /// Whether any diagnostic is an error.
    pub fn has_errors(&self) -> (b: bool)
        ensures
            b == exists|i: int| 0 <= i < self.diagnostics@.len() && #[trigger] self.diagnostics@[i].severity == Severity::Error,
    {
        let mut i: usize = 0;
        while i < self.diagnostics.len()
            invariant
                i <= self.diagnostics@.len(),
                forall|j: int| 0 <= j < i ==> #[trigger] self.diagnostics@[j].severity != Severity::Error,
            decreases self.diagnostics.len() - i,
        {
            if self.diagnostics[i].is_error() {
                return true;
            }
            i += 1;
        }
        false
    }

    /// The warnings among the diagnostics, in order.
    pub fn warnings(&self) -> (w: Vec<&Diagnostic>)
        ensures
            w@.map_values(|d: &Diagnostic| d@) == diags_view(self.diagnostics@).filter(|d: DiagV| is_warning(d)),
    {
        let ghost all = diags_view(self.diagnostics@);
        let mut w: Vec<&Diagnostic> = Vec::new();
        let mut i: usize = 0;
        proof {
            reveal(Seq::filter);
            assert(all.take(0) =~= Seq::<DiagV>::empty());
            assert(w@.map_values(|d: &Diagnostic| d@) =~= all.take(0).filter(|d: DiagV| is_warning(d)));
        }
        while i < self.diagnostics.len()
            invariant
                i <= self.diagnostics@.len(),
                all == diags_view(self.diagnostics@),
                w@.map_values(|d: &Diagnostic| d@) == all.take(i as int).filter(|d: DiagV| is_warning(d)),
            decreases self.diagnostics.len() - i,
        {
            let ghost w0 = w@;
            let d = &self.diagnostics[i];
            if d.severity == Severity::Warning {
                w.push(d);
            }
            proof {
                reveal(Seq::filter);
                assert(all.take(i + 1).drop_last() =~= all.take(i as int));
                assert(w@.map_values(|d: &Diagnostic| d@) =~= all.take(i + 1).filter(|d: DiagV| is_warning(d)));
            }
            i += 1;
        }
        proof {
            assert(all.take(i as int) =~= all);
        }
        w
    }
}

} // verus!
